use vstd::prelude::*;

use crate::typekind::compat;
use crate::typekind::tyv;
use crate::typekind::TyV;
use crate::typekind::TypeKind;

verus! {

/// The declared or inferred shape of a callable node: its argument types
/// in order, and its return type.
#[derive(Debug)]
pub struct Signature {
    pub arguments: Vec<TypeKind>,
    pub return_t: TypeKind,
}

/// The mathematical value of a `Signature`.
pub struct SigV {
    pub arguments: Seq<TyV>,
    pub return_t: TyV,
}

impl View for Signature {
    type V = SigV;

    open spec fn view(&self) -> SigV {
        SigV {
            arguments: self.arguments@.map_values(|t: TypeKind| tyv(t)),
            return_t: tyv(self.return_t),
        }
    }
}

/// Signature equality: argument types are compared positionally up to the
/// shorter list's length — extra trailing arguments on either side are not
/// compared, a kept edge case — and the return types must be compatible.
pub open spec fn sig_compat(a: SigV, b: SigV) -> bool {
    let n = if a.arguments.len() <= b.arguments.len() {
        a.arguments.len()
    } else {
        b.arguments.len()
    };
    (forall|i: int| 0 <= i < n ==> compat(#[trigger] a.arguments[i], b.arguments[i])) && compat(
        a.return_t,
        b.return_t,
    )
}

impl Signature {
    /// A fresh signature holding the same value, the body of `clone`.
    pub fn duplicate(&self) -> (r: Signature)
        ensures
            r@ == self@,
    {
        let mut args: Vec<TypeKind> = Vec::new();
        let mut i: usize = 0;
        while i < self.arguments.len()
            invariant
                i <= self.arguments.len(),
                args@.len() == i,
                forall|x: int| 0 <= x < i ==> tyv(#[trigger] args@[x]) == tyv(self.arguments@[x]),
            decreases self.arguments.len() - i,
        {
            args.push(self.arguments[i].duplicate());
            i = i + 1;
        }
        let r = Signature { arguments: args, return_t: self.return_t.duplicate() };
        proof {
            assert(r@.arguments =~= self@.arguments);
        }
        r
    }
}

impl Clone for Signature {
    fn clone(&self) -> (r: Self)
        ensures
            r@ == self@,
    {
        self.duplicate()
    }
}

impl PartialEq for Signature {
    fn eq(&self, other: &Self) -> (r: bool) {
        let n = if self.arguments.len() <= other.arguments.len() {
            self.arguments.len()
        } else {
            other.arguments.len()
        };
        let mut i: usize = 0;
        while i < n
            invariant
                i <= n,
                n == if self@.arguments.len() <= other@.arguments.len() {
                    self@.arguments.len()
                } else {
                    other@.arguments.len()
                },
                forall|x: int|
                    0 <= x < i ==> compat(#[trigger] self@.arguments[x], other@.arguments[x]),
            decreases n - i,
        {
            if !self.arguments[i].compatible(&other.arguments[i]) {
                proof {
                    assert(self@.arguments[i as int] == tyv(self.arguments@[i as int]));
                    assert(other@.arguments[i as int] == tyv(other.arguments@[i as int]));
                }
                return false;
            }
            i = i + 1;
        }
        self.return_t.compatible(&other.return_t)
    }
}

impl vstd::std_specs::cmp::PartialEqSpecImpl for Signature {
    open spec fn obeys_eq_spec() -> bool {
        true
    }

    open spec fn eq_spec(&self, other: &Self) -> bool {
        sig_compat(self@, other@)
    }
}

} // verus!
