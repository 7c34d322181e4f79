use vstd::prelude::*;
use vstd::string::StringExecFns;

verus! {

/// The built-in operator kinds that an operator node can carry.
#[derive(Debug, Clone, Copy, PartialEq, Eq, Structural, Hash)]
pub enum FnKind {
    Stub,
    Is,
    And,
    Or,
    Eq,
    Add,
    Mod,
    Mul,
    Call,
    Return,
}

/// The printed name of an operator kind.
pub open spec fn fnkind_chars(k: FnKind) -> Seq<char> {
    match k {
        FnKind::Stub => "Stub"@,
        FnKind::Is => "Is"@,
        FnKind::And => "And"@,
        FnKind::Or => "Or"@,
        FnKind::Eq => "Eq"@,
        FnKind::Add => "Add"@,
        FnKind::Mod => "Mod"@,
        FnKind::Mul => "Mul"@,
        FnKind::Call => "Call"@,
        FnKind::Return => "Return"@,
    }
}

impl FnKind {
    /// The operator kind's printed name.
    pub fn to_string(&self) -> (r: String)
        ensures
            r@ == fnkind_chars(*self),
    {
        match self {
            FnKind::Stub => String::from_str("Stub"),
            FnKind::Is => String::from_str("Is"),
            FnKind::And => String::from_str("And"),
            FnKind::Or => String::from_str("Or"),
            FnKind::Eq => String::from_str("Eq"),
            FnKind::Add => String::from_str("Add"),
            FnKind::Mod => String::from_str("Mod"),
            FnKind::Mul => String::from_str("Mul"),
            FnKind::Call => String::from_str("Call"),
            FnKind::Return => String::from_str("Return"),
        }
    }
}

/// A type descriptor: the closed union of kinds that the lattice orders.
/// `Object` carries an ordered field list; comparisons treat it as a set
/// keyed by field name, where a repeated name means the later entry wins.
#[derive(Debug)]
pub enum TypeKind {
    Unknown,
    Number,
    String,
    Boolean,
    Void,
    Object(Vec<(String, TypeKind)>),
    InBuilt(FnKind),
    Function,
    Any,
}

/// The mathematical value of a `TypeKind`: field names become character
/// sequences, so two descriptors that print the same are the same value.
pub enum TyV {
    Unknown,
    Number,
    Str,
    Boolean,
    Void,
    Object(Seq<(Seq<char>, TyV)>),
    InBuilt(FnKind),
    Function,
    Any,
}

/// The value of a descriptor.
pub open spec fn tyv(t: TypeKind) -> TyV
    decreases t,
{
    match t {
        TypeKind::Unknown => TyV::Unknown,
        TypeKind::Number => TyV::Number,
        TypeKind::String => TyV::Str,
        TypeKind::Boolean => TyV::Boolean,
        TypeKind::Void => TyV::Void,
        TypeKind::Object(v) => TyV::Object(tyv_fields(v@)),
        TypeKind::InBuilt(k) => TyV::InBuilt(k),
        TypeKind::Function => TyV::Function,
        TypeKind::Any => TyV::Any,
    }
}

/// The value of an `Object` field list.
pub open spec fn tyv_fields(s: Seq<(String, TypeKind)>) -> Seq<(Seq<char>, TyV)>
    decreases s,
{
    if s.len() == 0 {
        Seq::empty()
    } else {
        tyv_fields(s.drop_last()).push((s.last().0@, tyv(s.last().1)))
    }
}

pub proof fn lemma_tyv_fields(s: Seq<(String, TypeKind)>)
    ensures
        tyv_fields(s).len() == s.len(),
        forall|i: int|
            0 <= i < s.len() ==> #[trigger] tyv_fields(s)[i] == (s[i].0@, tyv(s[i].1)),
    decreases s,
{
    if s.len() > 0 {
        lemma_tyv_fields(s.drop_last());
    }
}

/// The type of the value at field name `k`, with a repeated name resolved
/// to the entry closest to the end of the list.
pub open spec fn find_last(fs: Seq<(Seq<char>, TyV)>, k: Seq<char>) -> Option<TyV>
    decreases fs,
{
    if fs.len() == 0 {
        None
    } else if fs.last().0 == k {
        Some(fs.last().1)
    } else {
        find_last(fs.drop_last(), k)
    }
}

/// The set of field names of an `Object` field list.
pub open spec fn key_set(fs: Seq<(Seq<char>, TyV)>) -> Set<Seq<char>>
    decreases fs,
{
    if fs.len() == 0 {
        Set::empty()
    } else {
        key_set(fs.drop_last()).insert(fs.last().0)
    }
}

/// Nesting depth of a type value; only `Object` nests.
pub open spec fn depth(t: TyV) -> nat
    decreases t,
{
    match t {
        TyV::Object(fs) => 1 + fields_depth(fs),
        _ => 0,
    }
}

pub open spec fn fields_depth(fs: Seq<(Seq<char>, TyV)>) -> nat
    decreases fs,
{
    if fs.len() == 0 {
        0
    } else {
        let d1 = depth(fs.last().1);
        let d2 = fields_depth(fs.drop_last());
        if d1 > d2 {
            d1
        } else {
            d2
        }
    }
}

pub proof fn lemma_find_last_depth(fs: Seq<(Seq<char>, TyV)>, k: Seq<char>)
    ensures
        find_last(fs, k) matches Some(v) ==> depth(v) <= fields_depth(fs),
    decreases fs,
{
    if fs.len() > 0 && fs.last().0 != k {
        lemma_find_last_depth(fs.drop_last(), k);
    }
}

pub proof fn lemma_find_last_key_set(fs: Seq<(Seq<char>, TyV)>, k: Seq<char>)
    ensures
        find_last(fs, k) is Some <==> key_set(fs).contains(k),
    decreases fs,
{
    if fs.len() > 0 && fs.last().0 != k {
        lemma_find_last_key_set(fs.drop_last(), k);
    }
}

pub proof fn lemma_key_set_index(fs: Seq<(Seq<char>, TyV)>, i: int)
    requires
        0 <= i < fs.len(),
    ensures
        key_set(fs).contains(fs[i].0),
    decreases fs,
{
    if i < fs.len() - 1 {
        lemma_key_set_index(fs.drop_last(), i);
    }
}

pub proof fn lemma_key_set_member(fs: Seq<(Seq<char>, TyV)>, k: Seq<char>)
    requires
        key_set(fs).contains(k),
    ensures
        exists|i: int| 0 <= i < fs.len() && fs[i].0 == k,
    decreases fs,
{
    if fs.len() > 0 && fs.last().0 != k {
        lemma_key_set_member(fs.drop_last(), k);
        let i = choose|i: int| 0 <= i < fs.drop_last().len() && fs.drop_last()[i].0 == k;
        assert(fs[i].0 == k);
    }
}

/// Type compatibility, the `~=` relation of the lattice:
/// `Unknown` and `Any` are compatible with everything, equal concrete
/// scalar kinds are compatible, any two operator kinds are compatible,
/// an `Add` operator is compatible with `Number`, and two objects are
/// compatible when their field-name sets are identical and each shared
/// field's type is compatible.  Everything else is incompatible.
pub open spec fn compat(a: TyV, b: TyV) -> bool
    decreases depth(a), 1nat, 0nat,
{
    match (a, b) {
        (_, TyV::Any) => true,
        (TyV::Any, _) => true,
        (_, TyV::Unknown) => true,
        (TyV::Unknown, _) => true,
        (TyV::Function, TyV::Function) => true,
        (TyV::Number, TyV::Number) => true,
        (TyV::Str, TyV::Str) => true,
        (TyV::Boolean, TyV::Boolean) => true,
        (TyV::Void, TyV::Void) => true,
        (TyV::InBuilt(_), TyV::InBuilt(_)) => true,
        (TyV::InBuilt(k), TyV::Number) => k == FnKind::Add,
        (TyV::Number, TyV::InBuilt(k)) => k == FnKind::Add,
        (TyV::Object(fa), TyV::Object(fb)) => key_set(fa) == key_set(fb) && fields_compat(
            fa,
            fb,
            fa,
        ),
        _ => false,
    }
}

/// Every field name drawn from `pending` resolves in both `fa` and `fb`
/// to compatible types.
pub open spec fn fields_compat(
    fa: Seq<(Seq<char>, TyV)>,
    fb: Seq<(Seq<char>, TyV)>,
    pending: Seq<(Seq<char>, TyV)>,
) -> bool
    decreases fields_depth(fa) + 1, 0nat, pending.len(),
        via fields_compat_decreases
{
    if pending.len() == 0 {
        true
    } else {
        entry_compat(fa, fb, pending.last().0) && fields_compat(fa, fb, pending.drop_last())
    }
}

/// The single-field-name obligation used by `fields_compat`.
pub open spec fn entry_compat(
    fa: Seq<(Seq<char>, TyV)>,
    fb: Seq<(Seq<char>, TyV)>,
    k: Seq<char>,
) -> bool
    decreases fields_depth(fa) + 1, 0nat, 0nat,
        via entry_compat_decreases
{
    match (find_last(fa, k), find_last(fb, k)) {
        (Some(va), Some(vb)) => compat(va, vb),
        _ => false,
    }
}

#[via_fn]
proof fn fields_compat_decreases(
    fa: Seq<(Seq<char>, TyV)>,
    fb: Seq<(Seq<char>, TyV)>,
    pending: Seq<(Seq<char>, TyV)>,
) {
}

#[via_fn]
proof fn entry_compat_decreases(
    fa: Seq<(Seq<char>, TyV)>,
    fb: Seq<(Seq<char>, TyV)>,
    k: Seq<char>,
) {
    lemma_find_last_depth(fa, k);
}

/// The partial order of the lattice: everything is below `Any`,
/// `Unknown` compares equal to everything, equal concrete scalar kinds
/// are equal, any two operator kinds are equal, and objects are ordered
/// by field-set inclusion with compatible shared fields.  Any remaining
/// pairing of distinct concrete kinds compares as greater, a fallback
/// kept as the lattice defines it.
pub open spec fn cmp_spec(a: TyV, b: TyV) -> Option<core::cmp::Ordering>
    decreases depth(a), 1nat, 0nat,
{
    match (a, b) {
        (_, TyV::Any) => Some(core::cmp::Ordering::Less),
        (TyV::Any, _) => Some(core::cmp::Ordering::Greater),
        (_, TyV::Unknown) => Some(core::cmp::Ordering::Equal),
        (TyV::Unknown, _) => Some(core::cmp::Ordering::Equal),
        (TyV::Function, TyV::Function) => Some(core::cmp::Ordering::Equal),
        (TyV::Number, TyV::Number) => Some(core::cmp::Ordering::Equal),
        (TyV::Str, TyV::Str) => Some(core::cmp::Ordering::Equal),
        (TyV::Boolean, TyV::Boolean) => Some(core::cmp::Ordering::Equal),
        (TyV::Void, TyV::Void) => Some(core::cmp::Ordering::Equal),
        (TyV::InBuilt(_), TyV::InBuilt(_)) => Some(core::cmp::Ordering::Equal),
        (TyV::Object(fa), TyV::Object(fb)) => if fields_compat(fa, fb, fa) && key_set(fa)
            == key_set(fb) {
            Some(core::cmp::Ordering::Equal)
        } else if fields_compat(fa, fb, fa) && key_set(fa).subset_of(key_set(fb)) {
            Some(core::cmp::Ordering::Less)
        } else {
            None
        },
        _ => Some(core::cmp::Ordering::Greater),
    }
}

/// `a` is at most `b` in the lattice order.
pub open spec fn le_spec(a: TyV, b: TyV) -> bool {
    cmp_spec(a, b) matches Some(core::cmp::Ordering::Less | core::cmp::Ordering::Equal)
}

/// Index of the entry that resolves field name `k`, scanning from the end.
fn find_last_idx(v: &Vec<(String, TypeKind)>, k: &String) -> (r: Option<usize>)
    ensures
        match r {
            Some(i) => i < v.len() && v@[i as int].0@ == k@ && find_last(tyv_fields(v@), k@)
                == Some(tyv(v@[i as int].1)),
            None => find_last(tyv_fields(v@), k@) is None,
        },
{
    proof {
        lemma_tyv_fields(v@);
        assert(tyv_fields(v@).subrange(0, v@.len() as int) =~= tyv_fields(v@));
    }
    let mut j = v.len();
    while j > 0
        invariant
            j <= v.len(),
            find_last(tyv_fields(v@), k@) == find_last(
                tyv_fields(v@).subrange(0, j as int),
                k@,
            ),
        decreases j,
    {
        j = j - 1;
        if v[j].0 == *k {
            proof {
                lemma_tyv_fields(v@);
                let fs = tyv_fields(v@).subrange(0, j + 1);
                assert(fs.last() == tyv_fields(v@)[j as int]);
                assert(fs.last().0 == k@);
            }
            return Some(j);
        }
        proof {
            lemma_tyv_fields(v@);
            let fs = tyv_fields(v@).subrange(0, j + 1);
            assert(fs.last().0 != k@);
            assert(fs.drop_last() =~= tyv_fields(v@).subrange(0, j as int));
        }
    }
    proof {
        assert(tyv_fields(v@).subrange(0, 0).len() == 0);
    }
    None
}

/// Every field name of `a` is also a field name of `b`.
fn obj_keys_subset(a: &Vec<(String, TypeKind)>, b: &Vec<(String, TypeKind)>) -> (r: bool)
    ensures
        r == key_set(tyv_fields(a@)).subset_of(key_set(tyv_fields(b@))),
{
    let ghost fa = tyv_fields(a@);
    let ghost fb = tyv_fields(b@);
    proof {
        lemma_tyv_fields(a@);
    }
    let mut i: usize = 0;
    while i < a.len()
        invariant
            i <= a.len(),
            fa == tyv_fields(a@),
            fb == tyv_fields(b@),
            fa.len() == a@.len(),
            forall|x: int| 0 <= x < a@.len() ==> #[trigger] fa[x] == (a@[x].0@, tyv(a@[x].1)),
            forall|x: int| 0 <= x < i ==> key_set(fb).contains(#[trigger] fa[x].0),
        decreases a.len() - i,
    {
        let found = find_last_idx(b, &a[i].0);
        proof {
            lemma_find_last_key_set(fb, a@[i as int].0@);
        }
        if found.is_none() {
            proof {
                lemma_key_set_index(fa, i as int);
            }
            return false;
        }
        i = i + 1;
    }
    proof {
        assert forall|k: Seq<char>| key_set(fa).contains(k) implies key_set(fb).contains(
            k,
        ) by {
            lemma_key_set_member(fa, k);
            let x = choose|x: int| 0 <= x < fa.len() && fa[x].0 == k;
            assert(key_set(fb).contains(fa[x].0));
        }
    }
    true
}

/// Every field name of `a` resolves in both lists to compatible types.
fn obj_shared_compat(a: &Vec<(String, TypeKind)>, b: &Vec<(String, TypeKind)>) -> (r: bool)
    ensures
        r == fields_compat(tyv_fields(a@), tyv_fields(b@), tyv_fields(a@)),
    decreases a@, 0nat,
{
    let ghost fa = tyv_fields(a@);
    let ghost fb = tyv_fields(b@);
    proof {
        lemma_tyv_fields(a@);
        lemma_fields_compat_iff(fa, fb, fa);
    }
    let mut i: usize = 0;
    while i < a.len()
        invariant
            i <= a.len(),
            fa == tyv_fields(a@),
            fb == tyv_fields(b@),
            fa.len() == a@.len(),
            forall|x: int| 0 <= x < a@.len() ==> #[trigger] fa[x] == (a@[x].0@, tyv(a@[x].1)),
            forall|x: int| 0 <= x < i ==> entry_compat(fa, fb, #[trigger] fa[x].0),
        decreases a.len() - i,
    {
        let ghost k = fa[i as int].0;
        let in_b = find_last_idx(b, &a[i].0);
        let jb = match in_b {
            Some(jb) => jb,
            None => {
                proof {
                    lemma_fields_compat_iff(fa, fb, fa);
                    assert(!entry_compat(fa, fb, k));
                }
                return false;
            },
        };
        let in_a = find_last_idx(a, &a[i].0);
        let ia = match in_a {
            Some(ia) => ia,
            None => {
                proof {
                    lemma_key_set_index(fa, i as int);
                    lemma_find_last_key_set(fa, k);
                }
                assert(false);
                return false;
            },
        };
        proof {
            assert(decreases_to!(a@ => a@[ia as int]));
        }
        if !a[ia].1.compatible(&b[jb].1) {
            proof {
                lemma_fields_compat_iff(fa, fb, fa);
                assert(!entry_compat(fa, fb, k));
            }
            return false;
        }
        proof {
            assert(entry_compat(fa, fb, k));
        }
        i = i + 1;
    }
    proof {
        lemma_fields_compat_iff(fa, fb, fa);
    }
    true
}

pub proof fn lemma_fields_compat_iff(
    fa: Seq<(Seq<char>, TyV)>,
    fb: Seq<(Seq<char>, TyV)>,
    pending: Seq<(Seq<char>, TyV)>,
)
    ensures
        fields_compat(fa, fb, pending) <==> (forall|i: int|
            0 <= i < pending.len() ==> entry_compat(fa, fb, #[trigger] pending[i].0)),
    decreases pending,
{
    if pending.len() > 0 {
        lemma_fields_compat_iff(fa, fb, pending.drop_last());
        assert(forall|i: int|
            0 <= i < pending.len() - 1 ==> #[trigger] pending[i] == pending.drop_last()[i]);
    }
}

impl TypeKind {
    /// Whether the two descriptors are compatible, the `~=` check that
    /// `==` performs on this type.
    pub fn compatible(&self, other: &TypeKind) -> (r: bool)
        ensures
            r == compat(tyv(*self), tyv(*other)),
        decreases *self, 1nat,
    {
        match (self, other) {
            (_, TypeKind::Any) => true,
            (TypeKind::Any, _) => true,
            (_, TypeKind::Unknown) => true,
            (TypeKind::Unknown, _) => true,
            (TypeKind::Function, TypeKind::Function) => true,
            (TypeKind::Number, TypeKind::Number) => true,
            (TypeKind::String, TypeKind::String) => true,
            (TypeKind::Boolean, TypeKind::Boolean) => true,
            (TypeKind::Void, TypeKind::Void) => true,
            (TypeKind::InBuilt(_), TypeKind::InBuilt(_)) => true,
            (TypeKind::InBuilt(k), TypeKind::Number) => matches!(k, FnKind::Add),
            (TypeKind::Number, TypeKind::InBuilt(k)) => matches!(k, FnKind::Add),
            (TypeKind::Object(a), TypeKind::Object(b)) => {
                let ghost fa = tyv_fields(a@);
                let ghost fb = tyv_fields(b@);
                let c = obj_shared_compat(a, b);
                let s1 = obj_keys_subset(a, b);
                let s2 = obj_keys_subset(b, a);
                proof {
                    if s1 && s2 {
                        assert(key_set(fa) =~= key_set(fb));
                    }
                    if !s1 || !s2 {
                        assert(key_set(fa) != key_set(fb)) by {
                            if key_set(fa) == key_set(fb) {
                                assert(key_set(fa).subset_of(key_set(fb)));
                                assert(key_set(fb).subset_of(key_set(fa)));
                            }
                        }
                    }
                }
                c && s1 && s2
            },
            _ => false,
        }
    }

    /// Where the two descriptors stand in the lattice order, the
    /// comparison that `<`, `<=` and `partial_cmp` perform on this type.
    pub fn compare(&self, other: &TypeKind) -> (r: Option<core::cmp::Ordering>)
        ensures
            r == cmp_spec(tyv(*self), tyv(*other)),
        decreases *self, 1nat,
    {
        match (self, other) {
            (_, TypeKind::Any) => Some(core::cmp::Ordering::Less),
            (TypeKind::Any, _) => Some(core::cmp::Ordering::Greater),
            (_, TypeKind::Unknown) => Some(core::cmp::Ordering::Equal),
            (TypeKind::Unknown, _) => Some(core::cmp::Ordering::Equal),
            (TypeKind::Function, TypeKind::Function) => Some(core::cmp::Ordering::Equal),
            (TypeKind::Number, TypeKind::Number) => Some(core::cmp::Ordering::Equal),
            (TypeKind::String, TypeKind::String) => Some(core::cmp::Ordering::Equal),
            (TypeKind::Boolean, TypeKind::Boolean) => Some(core::cmp::Ordering::Equal),
            (TypeKind::Void, TypeKind::Void) => Some(core::cmp::Ordering::Equal),
            (TypeKind::InBuilt(_), TypeKind::InBuilt(_)) => Some(core::cmp::Ordering::Equal),
            (TypeKind::Object(a), TypeKind::Object(b)) => {
                let ghost fa = tyv_fields(a@);
                let ghost fb = tyv_fields(b@);
                let c = obj_shared_compat(a, b);
                if c {
                    let s1 = obj_keys_subset(a, b);
                    let s2 = obj_keys_subset(b, a);
                    if s1 && s2 {
                        proof {
                            assert(key_set(fa) =~= key_set(fb));
                        }
                        Some(core::cmp::Ordering::Equal)
                    } else if s1 {
                        proof {
                            assert(key_set(fa) != key_set(fb)) by {
                                if key_set(fa) == key_set(fb) {
                                    assert(key_set(fb).subset_of(key_set(fa)));
                                }
                            }
                        }
                        Some(core::cmp::Ordering::Less)
                    } else {
                        proof {
                            assert(key_set(fa) != key_set(fb)) by {
                                if key_set(fa) == key_set(fb) {
                                    assert(key_set(fa).subset_of(key_set(fb)));
                                }
                            }
                        }
                        None
                    }
                } else {
                    None
                }
            },
            _ => Some(core::cmp::Ordering::Greater),
        }
    }
}

/// A fresh field list holding the same value as `v`.
fn dup_fields(v: &Vec<(String, TypeKind)>) -> (r: Vec<(String, TypeKind)>)
    ensures
        tyv_fields(r@) == tyv_fields(v@),
    decreases v@, 0nat,
{
    let mut out: Vec<(String, TypeKind)> = Vec::new();
    let mut i: usize = 0;
    while i < v.len()
        invariant
            i <= v.len(),
            out@.len() == i,
            tyv_fields(out@) == tyv_fields(v@.subrange(0, i as int)),
        decreases v.len() - i,
    {
        proof {
            assert(decreases_to!(v@ => v@[i as int]));
        }
        let name = v[i].0.clone();
        let t = v[i].1.duplicate();
        let ghost old_out = out@;
        out.push((name, t));
        proof {
            assert(out@.drop_last() =~= old_out);
            let s1 = v@.subrange(0, i + 1);
            assert(s1.drop_last() =~= v@.subrange(0, i as int));
            assert(s1.last() == v@[i as int]);
        }
        i = i + 1;
    }
    proof {
        assert(v@.subrange(0, v@.len() as int) =~= v@);
    }
    out
}

impl TypeKind {
    /// A fresh descriptor holding the same value, the body of `clone`.
    pub fn duplicate(&self) -> (r: TypeKind)
        ensures
            tyv(r) == tyv(*self),
        decreases *self, 1nat,
    {
        match self {
            TypeKind::Unknown => TypeKind::Unknown,
            TypeKind::Number => TypeKind::Number,
            TypeKind::String => TypeKind::String,
            TypeKind::Boolean => TypeKind::Boolean,
            TypeKind::Void => TypeKind::Void,
            TypeKind::Object(v) => TypeKind::Object(dup_fields(v)),
            TypeKind::InBuilt(k) => TypeKind::InBuilt(*k),
            TypeKind::Function => TypeKind::Function,
            TypeKind::Any => TypeKind::Any,
        }
    }
}

impl Clone for TypeKind {
    fn clone(&self) -> (r: Self)
        ensures
            tyv(r) == tyv(*self),
    {
        self.duplicate()
    }
}

impl PartialEq for TypeKind {
    fn eq(&self, other: &Self) -> (r: bool) {
        self.compatible(other)
    }
}

impl vstd::std_specs::cmp::PartialEqSpecImpl for TypeKind {
    open spec fn obeys_eq_spec() -> bool {
        true
    }

    open spec fn eq_spec(&self, other: &Self) -> bool {
        compat(tyv(*self), tyv(*other))
    }
}

impl PartialOrd for TypeKind {
    fn partial_cmp(&self, other: &Self) -> (r: Option<core::cmp::Ordering>) {
        self.compare(other)
    }
}

impl vstd::std_specs::cmp::PartialOrdSpecImpl for TypeKind {
    open spec fn obeys_partial_cmp_spec() -> bool {
        true
    }

    open spec fn partial_cmp_spec(&self, other: &Self) -> Option<core::cmp::Ordering> {
        cmp_spec(tyv(*self), tyv(*other))
    }
}

/// An under-determined type value: the only kinds narrowing may rewrite.
pub open spec fn is_under(t: TyV) -> bool {
    t matches TyV::Unknown || t matches TyV::Any
}

/// The concrete scalar kinds of the lattice.
pub open spec fn is_scalar(t: TyV) -> bool {
    t matches TyV::Number || t matches TyV::Str || t matches TyV::Boolean || t matches TyV::Void
        || t matches TyV::Function
}

/// `Unknown` and `Any` are compatible with every type value, in either
/// argument order: they absorb every comparison.
pub proof fn lemma_unknown_any_compat(x: TyV)
    ensures
        compat(TyV::Unknown, x),
        compat(x, TyV::Unknown),
        compat(TyV::Any, x),
        compat(x, TyV::Any),
{
}

/// A concrete scalar kind is compatible with itself and with no other
/// concrete scalar kind.
pub proof fn lemma_scalar_compat(k1: TyV, k2: TyV)
    requires
        is_scalar(k1),
        is_scalar(k2),
    ensures
        compat(k1, k1),
        k1 != k2 ==> !compat(k1, k2),
{
}

/// Two object values are compatible exactly when their field-name sets
/// are identical and every name resolves to compatible types: the order
/// of the field lists, and repeated names short of the winning entry,
/// play no part.
pub proof fn lemma_object_compat_by_field_set(fa: Seq<(Seq<char>, TyV)>, fb: Seq<(Seq<char>, TyV)>)
    ensures
        compat(TyV::Object(fa), TyV::Object(fb)) <==> (key_set(fa) == key_set(fb) && forall|
            k: Seq<char>,
        |
            key_set(fa).contains(k) ==> #[trigger] entry_compat(fa, fb, k)),
{
    lemma_fields_compat_iff(fa, fb, fa);
    if key_set(fa) == key_set(fb) {
        if fields_compat(fa, fb, fa) {
            assert forall|k: Seq<char>| key_set(fa).contains(k) implies #[trigger] entry_compat(
                fa,
                fb,
                k,
            ) by {
                lemma_key_set_member(fa, k);
                let i = choose|i: int| 0 <= i < fa.len() && fa[i].0 == k;
                assert(entry_compat(fa, fb, fa[i].0));
            }
        }
        if forall|k: Seq<char>| key_set(fa).contains(k) ==> #[trigger] entry_compat(fa, fb, k) {
            assert forall|i: int| 0 <= i < fa.len() implies entry_compat(
                fa,
                fb,
                #[trigger] fa[i].0,
            ) by {
                lemma_key_set_index(fa, i);
            }
        }
    }
}

/// Compatibility is symmetric; in particular two `Object` values compare
/// equal in either order, whatever the order of their field lists.
pub proof fn lemma_compat_symmetric(a: TyV, b: TyV)
    ensures
        compat(a, b) == compat(b, a),
    decreases depth(a),
{
    match (a, b) {
        (TyV::Object(fa), TyV::Object(fb)) => {
            if key_set(fa) == key_set(fb) {
                assert forall|k: Seq<char>| key_set(fa).contains(k) implies entry_compat(
                    fa,
                    fb,
                    k,
                ) == entry_compat(fb, fa, k) by {
                    lemma_find_last_key_set(fa, k);
                    lemma_find_last_key_set(fb, k);
                    match (find_last(fa, k), find_last(fb, k)) {
                        (Some(va), Some(vb)) => {
                            lemma_find_last_depth(fa, k);
                            lemma_compat_symmetric(va, vb);
                        },
                        _ => {},
                    }
                }
                lemma_fields_compat_iff(fa, fb, fa);
                lemma_fields_compat_iff(fb, fa, fb);
                if fields_compat(fa, fb, fa) {
                    assert forall|j: int| 0 <= j < fb.len() implies entry_compat(
                        fb,
                        fa,
                        #[trigger] fb[j].0,
                    ) by {
                        lemma_key_set_index(fb, j);
                        lemma_key_set_member(fa, fb[j].0);
                        let i = choose|i: int| 0 <= i < fa.len() && fa[i].0 == fb[j].0;
                        assert(entry_compat(fa, fb, fa[i].0));
                        assert(key_set(fa).contains(fb[j].0));
                    }
                } else if fields_compat(fb, fa, fb) {
                    assert forall|i: int| 0 <= i < fa.len() implies entry_compat(
                        fa,
                        fb,
                        #[trigger] fa[i].0,
                    ) by {
                        lemma_key_set_index(fa, i);
                        lemma_key_set_member(fb, fa[i].0);
                        let j = choose|j: int| 0 <= j < fb.len() && fb[j].0 == fa[i].0;
                        assert(entry_compat(fb, fa, fb[j].0));
                        assert(key_set(fa).contains(fa[i].0));
                    }
                    assert(fields_compat(fa, fb, fa));
                }
            }
        },
        _ => {},
    }
}

} // verus!

