use ceph_db::ast::AbstractSyntaxTree;
use ceph_db::typekind::FnKind;

#[test]
fn syntax_tree_edits() {
    let mut t = AbstractSyntaxTree::new(FnKind::Eq);
    assert!(matches!(t.get_value(), FnKind::Eq));
    assert_eq!(t.get_children().len(), 0);

    t.add_child(AbstractSyntaxTree::new(FnKind::Add));
    t.add_child(AbstractSyntaxTree::new(FnKind::Mul));
    assert_eq!(t.get_children().len(), 2);
    assert!(matches!(t.get_children()[0].get_value(), FnKind::Add));

    t.set_value(FnKind::Or);
    assert!(matches!(t.get_value(), FnKind::Or));

    t.set_children(vec![AbstractSyntaxTree::new(FnKind::Is)]);
    assert_eq!(t.get_children().len(), 1);
}
