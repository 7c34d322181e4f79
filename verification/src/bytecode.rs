use vstd::prelude::*;
use vstd::string::StringExecFns;

use crate::lexer::TokV;
use crate::lexer::Token;
use crate::node::fresh_identity;
use crate::typekind::fnkind_chars;
use crate::typekind::tyv;
use crate::typekind::FnKind;
use crate::typekind::TyV;
use crate::errors::TypeErrors;
use crate::typekind::TypeKind;

verus! {

/// The identifiers a translation run has issued, keyed by qualified
/// name, kept in a hash map.  Verus does not accept a declaration of
/// `hashbrown::HashMap` itself (its allocator parameter's trait has no
/// public path), so the collection sits in a hidden field, described by
/// `name_table_of`.
#[verifier::external_body]
pub struct NameTable {
    inner: hashbrown::HashMap<String, u128>,
}

/// What a `NameTable` holds, as a map from names to identifiers.
pub uninterp spec fn name_table_of(t: &NameTable) -> Map<Seq<char>, u128>;

/// The empty name-to-identifier map.
pub open spec fn no_names() -> Map<Seq<char>, u128> {
    Map::empty()
}

impl NameTable {
    /// Relies on `hashbrown::HashMap::new`: a fresh, empty map.
    #[verifier::external_body]
    pub fn new() -> (t: NameTable)
        ensures
            name_table_of(&t) == no_names(),
    {
        NameTable { inner: hashbrown::HashMap::new() }
    }

    /// Relies on `hashbrown::HashMap::get`: the value recorded under the
    /// key, if one was recorded.
    #[verifier::external_body]
    pub fn get(&self, k: &String) -> (r: Option<u128>)
        ensures
            match r {
                Some(v) => name_table_of(self).contains_key(k@) && name_table_of(self)[k@] == v,
                None => !name_table_of(self).contains_key(k@),
            },
    {
        self.inner.get(k).copied()
    }

    /// Relies on `hashbrown::HashMap::insert`: afterwards the map holds
    /// exactly the old records and the new one, which wins over an old
    /// record under the same key.
    #[verifier::external_body]
    pub fn insert(&mut self, k: String, v: u128)
        ensures
            name_table_of(final(self)) == name_table_of(old(self)).insert(k@, v),
    {
        self.inner.insert(k, v);
    }
}

/// The qualified name a function-local value is registered under.
pub open spec fn qualified_name(fn_name: Seq<char>, var_name: Seq<char>) -> Seq<char> {
    fn_name + seq!['_'] + var_name
}

/// The identifier-naming registry: each qualified name resolves to one
/// stable identifier, drawn the first time the name is seen.
pub struct NameSpace {
    issued: NameTable,
}

impl View for NameSpace {
    type V = Map<Seq<char>, u128>;

    closed spec fn view(&self) -> Map<Seq<char>, u128> {
        name_table_of(&self.issued)
    }
}

impl NameSpace {
    /// An empty registry.
    pub fn new() -> (s: NameSpace)
        ensures
            s@ == no_names(),
    {
        NameSpace { issued: NameTable::new() }
    }

    /// The identifier for `fn_name` + `_` + `var_name`: the recorded one
    /// when the name was seen before, else a freshly drawn one, which is
    /// recorded.
    pub fn issue(&mut self, fn_name: &str, var_name: &str) -> (r: u128)
        ensures
            ({
                let key = qualified_name(fn_name@, var_name@);
                if old(self)@.contains_key(key) {
                    r == old(self)@[key] && final(self)@ == old(self)@
                } else {
                    final(self)@ == old(self)@.insert(key, r)
                }
            }),
    {
        let mut name = String::new();
        name.append(fn_name);
        name.append("_");
        name.append(var_name);
        proof {
            reveal_strlit("_");
            assert("_"@ =~= seq!['_']);
            assert(name@ =~= qualified_name(fn_name@, var_name@));
        }
        match self.issued.get(&name) {
            Some(v) => v,
            None => {
                let id = fresh_identity();
                self.issued.insert(name, id);
                id
            },
        }
    }
}

/// A last-in, first-out stack.
#[derive(Debug)]
pub struct Stack<T> {
    stack: Vec<T>,
}

impl<T> View for Stack<T> {
    type V = Seq<T>;

    closed spec fn view(&self) -> Seq<T> {
        self.stack@
    }
}

impl<T> Stack<T> {
    /// An empty stack.
    pub fn new() -> (s: Self)
        ensures
            s@ == Seq::<T>::empty(),
    {
        let s = Stack { stack: Vec::new() };
        proof {
            assert(s@ =~= Seq::<T>::empty());
        }
        s
    }

    /// Puts an item on top.
    pub fn push(&mut self, item: T)
        ensures
            final(self)@ == old(self)@.push(item),
    {
        self.stack.push(item);
    }

    /// Takes the top item off, if there is one.
    pub fn pop(&mut self) -> (r: Option<T>)
        ensures
            old(self)@.len() == 0 ==> r is None && final(self)@ == old(self)@,
            old(self)@.len() > 0 ==> (r matches Some(x) && x == old(self)@.last()) && final(self)@
                == old(self)@.drop_last(),
    {
        self.stack.pop()
    }

    /// How many items the stack holds.
    pub fn len(&self) -> (r: usize)
        ensures
            r == self@.len(),
    {
        self.stack.len()
    }

    /// The top item, if there is one.
    pub fn peek(&self) -> (r: Option<&T>)
        ensures
            self@.len() == 0 ==> r is None,
            self@.len() > 0 ==> (r matches Some(x) && x == self@.last()),
    {
        if self.stack.len() == 0 {
            None
        } else {
            Some(&self.stack[self.stack.len() - 1])
        }
    }

    /// Whether the stack holds nothing.
    pub fn is_empty(&self) -> (r: bool)
        ensures
            r == (self@.len() == 0),
    {
        self.stack.len() == 0
    }
}

/// The recorded argument counts of functions, keyed by function name,
/// kept in a hash map behind a hidden field like `NameTable`, described
/// by `arg_table_of`.
#[verifier::external_body]
pub struct ArgTable {
    inner: hashbrown::HashMap<String, usize>,
}

/// What an `ArgTable` holds, as a map from names to counts.
pub uninterp spec fn arg_table_of(t: &ArgTable) -> Map<Seq<char>, usize>;

/// The empty name-to-count map.
pub open spec fn no_args() -> Map<Seq<char>, usize> {
    Map::empty()
}

impl ArgTable {
    /// Relies on `hashbrown::HashMap::new`: a fresh, empty map.
    #[verifier::external_body]
    pub fn new() -> (t: ArgTable)
        ensures
            arg_table_of(&t) == no_args(),
    {
        ArgTable { inner: hashbrown::HashMap::new() }
    }

    /// Relies on `hashbrown::HashMap::get`: the value recorded under the
    /// key, if one was recorded.
    #[verifier::external_body]
    pub fn get(&self, k: &str) -> (r: Option<usize>)
        ensures
            match r {
                Some(v) => arg_table_of(self).contains_key(k@) && arg_table_of(self)[k@] == v,
                None => !arg_table_of(self).contains_key(k@),
            },
    {
        self.inner.get(k).copied()
    }

    /// Relies on `hashbrown::HashMap::insert`: afterwards the map holds
    /// exactly the old records and the new one, which wins over an old
    /// record under the same key.
    #[verifier::external_body]
    pub fn insert(&mut self, k: String, v: usize)
        ensures
            arg_table_of(final(self)) == arg_table_of(old(self)).insert(k@, v),
    {
        self.inner.insert(k, v);
    }
}

/// The decimal digit character for a value below ten.
pub open spec fn digit_char(d: int) -> char {
    if d == 0 {
        '0'
    } else if d == 1 {
        '1'
    } else if d == 2 {
        '2'
    } else if d == 3 {
        '3'
    } else if d == 4 {
        '4'
    } else if d == 5 {
        '5'
    } else if d == 6 {
        '6'
    } else if d == 7 {
        '7'
    } else if d == 8 {
        '8'
    } else {
        '9'
    }
}

/// The decimal digits of a non-negative value, most significant first.
pub open spec fn dec_digits(n: int) -> Seq<char>
    decreases n,
{
    if n < 10 {
        seq![digit_char(n)]
    } else {
        dec_digits(n / 10).push(digit_char(n % 10))
    }
}

fn digit_exec(d: usize) -> (c: char)
    requires
        d < 10,
    ensures
        c == digit_char(d as int),
{
    if d == 0 {
        '0'
    } else if d == 1 {
        '1'
    } else if d == 2 {
        '2'
    } else if d == 3 {
        '3'
    } else if d == 4 {
        '4'
    } else if d == 5 {
        '5'
    } else if d == 6 {
        '6'
    } else if d == 7 {
        '7'
    } else if d == 8 {
        '8'
    } else {
        '9'
    }
}

/// The decimal rendering of a value.
fn usize_to_string(n: usize) -> (s: String)
    ensures
        s@ == dec_digits(n as int),
{
    let mut low: Vec<char> = Vec::new();
    let mut m = n;
    let ghost mut done: Seq<char> = Seq::empty();
    proof {
        assert(dec_digits(n as int) =~= dec_digits(m as int) + done);
    }
    loop
        invariant_except_break
            0 <= m,
            dec_digits(n as int) == dec_digits(m as int) + done,
            done.len() == low@.len(),
            forall|i: int| 0 <= i < done.len() ==> done[i] == low@[low@.len() - 1 - i],
        ensures
            dec_digits(n as int) == done,
            done.len() == low@.len(),
            forall|i: int| 0 <= i < done.len() ==> done[i] == low@[low@.len() - 1 - i],
        decreases m,
    {
        let d = m % 10;
        low.push(digit_exec(d));
        proof {
            let done2 = seq![digit_char(d as int)] + done;
            if m < 10 {
                assert(dec_digits(m as int) == seq![digit_char(m as int)]);
                assert(seq![digit_char(m as int)] + done =~= done2);
                assert(dec_digits(n as int) =~= done2);
            } else {
                assert(dec_digits(m as int) == dec_digits(m as int / 10).push(
                    digit_char(m as int % 10),
                ));
                assert(dec_digits(m as int / 10).push(digit_char(m as int % 10)) + done
                    =~= dec_digits(m as int / 10) + done2);
            }
            done = done2;
        }
        if m < 10 {
            break ;
        }
        m = m / 10;
    }
    let mut s = String::new();
    let mut i: usize = 0;
    let count = low.len();
    while i < count
        invariant
            i <= count,
            count == low@.len(),
            done.len() == low@.len(),
            forall|x: int| 0 <= x < done.len() ==> done[x] == low@[low@.len() - 1 - x],
            s@ == done.subrange(0, i as int),
        decreases count - i,
    {
        crate::parser::push_char(&mut s, low[count - 1 - i]);
        proof {
            assert(s@ =~= done.subrange(0, i + 1));
        }
        i = i + 1;
    }
    proof {
        assert(done.subrange(0, done.len() as int) =~= done);
    }
    s
}

/// One serialized graph-building instruction.
#[allow(non_camel_case_types)]
#[derive(Debug)]
pub enum ByteCode {
    CREATE_NODE(u128, TypeKind),
    SET_ARGUMENT(u128, u128),
}

/// The mathematical value of a `ByteCode`.
pub enum BcV {
    CreateNode(u128, TyV),
    SetArgument(u128, u128),
}

impl View for ByteCode {
    type V = BcV;

    closed spec fn view(&self) -> BcV {
        match self {
            ByteCode::CREATE_NODE(id, t) => BcV::CreateNode(*id, tyv(*t)),
            ByteCode::SET_ARGUMENT(a, b) => BcV::SetArgument(*a, *b),
        }
    }
}

/// The registry key a token at position `idx` of the stream resolves to.
pub open spec fn tok_key(t: TokV, fname: Seq<char>, idx: int) -> Seq<char> {
    match t {
        TokV::Identifier(n) => qualified_name(fname, n),
        TokV::Keyword(k) => qualified_name(fname, fnkind_chars(k) + seq!['_'] + dec_digits(idx)),
    }
}

/// How many instructions a token emits.
pub open spec fn tok_emit(t: TokV) -> int {
    match t {
        TokV::Identifier(_) => 1,
        TokV::Keyword(f) => if f == FnKind::Return {
            2
        } else {
            0
        },
    }
}

/// Where the instructions of the token at `k` start in the output.
pub open spec fn emit_pos(stream: Seq<TokV>, k: int) -> int
    decreases k,
{
    if k <= 0 {
        0
    } else {
        emit_pos(stream, k - 1) + tok_emit(stream[k - 1])
    }
}

/// The translator's fault states, scanned in stream order.
pub enum EmitFault {
    NoFault,
    Unsupported(FnKind),
    MissingArity,
}

/// The first fault the translation of the stream from `k` on meets: a
/// keyword that is neither `Return` nor `Call`, or a `Call` while the
/// function's own argument count is unrecorded.
pub open spec fn emit_fault(stream: Seq<TokV>, k: int, ctx_ok: bool) -> EmitFault
    decreases stream.len() - k,
{
    if k < 0 || k >= stream.len() {
        EmitFault::NoFault
    } else {
        match stream[k] {
            TokV::Keyword(f) => if f == FnKind::Return {
                emit_fault(stream, k + 1, ctx_ok)
            } else if f == FnKind::Call {
                if ctx_ok {
                    emit_fault(stream, k + 1, ctx_ok)
                } else {
                    EmitFault::MissingArity
                }
            } else {
                EmitFault::Unsupported(f)
            },
            _ => emit_fault(stream, k + 1, ctx_ok),
        }
    }
}

/// The token-to-instruction translator: a token stream, the naming
/// registry it issues identifiers from, and the translation state.
pub struct VirtualMachine {
    name: String,
    stack: Stack<u128>,
    namespace: NameSpace,
    bytecode: Vec<ByteCode>,
    stream: Vec<Token>,
    context: ArgTable,
}

/// The mathematical value of a `VirtualMachine`.
pub struct VmV {
    pub name: Seq<char>,
    pub stack: Seq<u128>,
    pub namespace: Map<Seq<char>, u128>,
    pub bytecode: Seq<BcV>,
    pub stream: Seq<TokV>,
    pub context: Map<Seq<char>, usize>,
}

impl View for VirtualMachine {
    type V = VmV;

    closed spec fn view(&self) -> VmV {
        VmV {
            name: self.name@,
            stack: self.stack@,
            namespace: self.namespace@,
            bytecode: self.bytecode@.map_values(|b: ByteCode| b@),
            stream: self.stream@.map_values(|t: Token| t@),
            context: arg_table_of(&self.context),
        }
    }
}

impl VirtualMachine {
    /// A fresh translator over the given token stream.
    pub fn new(name: String, stream: Vec<Token>) -> (vm: VirtualMachine)
        ensures
            vm@.name == name@,
            vm@.stream == stream@.map_values(|t: Token| t@),
            vm@.stack.len() == 0,
            vm@.namespace == no_names(),
            vm@.bytecode.len() == 0,
            vm@.context == no_args(),
    {
        let vm = VirtualMachine {
            name,
            stack: Stack::new(),
            namespace: NameSpace::new(),
            bytecode: Vec::new(),
            stream,
            context: ArgTable::new(),
        };
        proof {
            assert(vm@.bytecode =~= Seq::<BcV>::empty());
        }
        vm
    }

    /// Records how many arguments the named function takes.
    pub fn add_function_argument(&mut self, name: &str, idx: usize)
        ensures
            final(self)@ == (VmV { context: old(self)@.context.insert(name@, idx), ..old(self)@ }),
    {
        self.context.insert(String::from_str(name), idx);
    }

    /// The recorded argument count of the named function, if any.
    pub fn get_function_argument(&self, name: &str) -> (r: Option<usize>)
        ensures
            match r {
                Some(v) => self@.context.contains_key(name@) && self@.context[name@] == v,
                None => !self@.context.contains_key(name@),
            },
    {
        let key = String::from_str(name);
        self.context.get(key.as_str())
    }

    /// How many instructions have been emitted into the stored program.
    pub fn bytecode_len(&self) -> (r: usize)
        ensures
            r == self@.bytecode.len(),
    {
        self.bytecode.len()
    }

    /// How many identifiers the stack holds.
    pub fn stack_len(&self) -> (r: usize)
        ensures
            r == self@.stack.len(),
    {
        self.stack.len()
    }

    /// The identifier of the token at `idx`: an identifier token is keyed
    /// by its name, a keyword token by its printed name and position.
    pub fn get_id(&mut self, idx: usize) -> (r: u128)
        requires
            idx < old(self)@.stream.len(),
        ensures
            final(self)@.name == old(self)@.name,
            final(self)@.stack == old(self)@.stack,
            final(self)@.bytecode == old(self)@.bytecode,
            final(self)@.stream == old(self)@.stream,
            final(self)@.context == old(self)@.context,
            ({
                let key = tok_key(old(self)@.stream[idx as int], old(self)@.name, idx as int);
                if old(self)@.namespace.contains_key(key) {
                    r == old(self)@.namespace[key] && final(self)@.namespace == old(self)@.namespace
                } else {
                    final(self)@.namespace == old(self)@.namespace.insert(key, r)
                }
            }),
    {
        let ghost key = tok_key(old(self)@.stream[idx as int], old(self)@.name, idx as int);
        let is_kw = matches!(&self.stream[idx], Token::Keyword(_));
        if is_kw {
            let k = match &self.stream[idx] {
                Token::Keyword(k) => *k,
                Token::Identifier(_) => {
                    proof {
                        assert(false);
                    }
                    FnKind::Stub
                },
            };
            let mut suffix = k.to_string();
            suffix.append("_");
            let num = usize_to_string(idx);
            suffix.append(num.as_str());
            proof {
                reveal_strlit("_");
                assert("_"@ =~= seq!['_']);
                assert(suffix@ =~= fnkind_chars(k) + seq!['_'] + dec_digits(idx as int));
            }
            let name = self.name.clone();
            self.namespace.issue(name.as_str(), suffix.as_str())
        } else {
            let n = match &self.stream[idx] {
                Token::Identifier(n) => n.clone(),
                Token::Keyword(_) => {
                    proof {
                        assert(false);
                    }
                    String::new()
                },
            };
            let name = self.name.clone();
            self.namespace.issue(name.as_str(), n.as_str())
        }
    }
}


pub proof fn lemma_emit_pos_nonneg(stream: Seq<TokV>, k: int)
    ensures
        emit_pos(stream, k) >= 0,
    decreases k,
{
    if k > 0 {
        lemma_emit_pos_nonneg(stream, k - 1);
        assert(tok_emit(stream[k - 1]) >= 0);
    }
}

pub proof fn lemma_emit_pos_mono(stream: Seq<TokV>, a: int, b: int)
    requires
        0 <= a < b,
    ensures
        emit_pos(stream, a) + tok_emit(stream[a]) <= emit_pos(stream, b),
    decreases b,
{
    if a + 1 < b {
        lemma_emit_pos_mono(stream, a, b - 1);
        assert(tok_emit(stream[b - 1]) >= 0);
    }
}

/// The values of a stored instruction list.
pub open spec fn bc_views(b: Seq<ByteCode>) -> Seq<BcV> {
    b.map_values(|x: ByteCode| x@)
}

/// What the instructions of the token at `k` look like in the output
/// `b`, given the registry `ns` the translation ended with.
pub open spec fn emit_at(
    b: Seq<BcV>,
    stream: Seq<TokV>,
    ns: Map<Seq<char>, u128>,
    fname: Seq<char>,
    k: int,
) -> bool {
    let p = emit_pos(stream, k);
    match stream[k] {
        TokV::Identifier(n) => b[p] == BcV::CreateNode(
            ns[qualified_name(fname, n)],
            TyV::Unknown,
        ),
        TokV::Keyword(f) => if f == FnKind::Return {
            b[p] == BcV::CreateNode(
                ns[tok_key(stream[k], fname, k)],
                TyV::InBuilt(FnKind::Return),
            ) && b[p + 1] == BcV::SetArgument(
                ns[tok_key(stream[k], fname, k)],
                ns[tok_key(stream[k + 1], fname, k + 1)],
            )
        } else {
            true
        },
    }
}

impl VirtualMachine {
    /// Translates the token stream into instructions.  Every token's
    /// name is registered first; then an identifier creates an
    /// unknown-typed node, a `Return` keyword creates a return-operator
    /// node wired to the following token's node, and a `Call` keyword
    /// emits nothing, its translation being unfinished.  A keyword with
    /// no translation rule is reported as unsupported, and a `Call` met
    /// while the function's own argument count is unrecorded reports the
    /// residual inference error instead of stopping the program.
    pub fn to_bytecode(&mut self) -> (r: Result<Vec<ByteCode>, TypeErrors>)
        requires
            forall|k: int|
                0 <= k < old(self)@.stream.len() && (#[trigger] old(self)@.stream[k])
                    == TokV::Keyword(FnKind::Return) ==> k + 1 < old(self)@.stream.len(),
        ensures
            final(self)@.name == old(self)@.name,
            final(self)@.stack == old(self)@.stack,
            final(self)@.bytecode == old(self)@.bytecode,
            final(self)@.stream == old(self)@.stream,
            final(self)@.context == old(self)@.context,
            forall|key: Seq<char>|
                old(self)@.namespace.contains_key(key) ==> (#[trigger] final(self)@.namespace.contains_key(key)) && final(self)@.namespace[key] == old(self)@.namespace[key],
            forall|k: int|
                0 <= k < old(self)@.stream.len() ==> final(self)@.namespace.contains_key(
                    #[trigger] tok_key(old(self)@.stream[k], old(self)@.name, k),
                ),
            ({
                let stream = old(self)@.stream;
                let fname = old(self)@.name;
                let ns = final(self)@.namespace;
                match emit_fault(stream, 0, old(self)@.context.contains_key(fname)) {
                    EmitFault::NoFault => r matches Ok(b) && b@.len() == emit_pos(
                        stream,
                        stream.len() as int,
                    ) && forall|k: int|
                        0 <= k < stream.len() ==> #[trigger] emit_at(
                            bc_views(b@),
                            stream,
                            ns,
                            fname,
                            k,
                        ),
                    EmitFault::Unsupported(f) => r matches Err(TypeErrors::UnsupportedOperator(
                        ff,
                    )) && ff == f,
                    EmitFault::MissingArity => r matches Err(TypeErrors::TypeInferenceError),
                }
            }),
    {
        let ghost stream_v = old(self)@.stream;
        let ghost fname = old(self)@.name;
        let ghost ns0 = old(self)@.namespace;
        let ghost ctx_has = old(self)@.context.contains_key(fname);
        let n = self.stream.len();
        // first pass: register a name for every token
        let mut x: usize = 0;
        while x < n
            invariant
                n == stream_v.len(),
                self@.name == old(self)@.name,
                self@.stack == old(self)@.stack,
                self@.bytecode == old(self)@.bytecode,
                self@.stream == old(self)@.stream,
                self@.context == old(self)@.context,
                stream_v == old(self)@.stream,
                fname == old(self)@.name,
                ns0 == old(self)@.namespace,
                x <= n,
                forall|key: Seq<char>|
                    ns0.contains_key(key) ==> (#[trigger] self@.namespace.contains_key(key))
                        && self@.namespace[key] == ns0[key],
                forall|kk: int|
                    0 <= kk < x ==> self@.namespace.contains_key(
                        #[trigger] tok_key(stream_v[kk], fname, kk),
                    ),
            decreases n - x,
        {
            let ghost ns_pre = self@.namespace;
            let _id = self.get_id(x);
            proof {
                assert forall|kk: int|
                    0 <= kk < x + 1 implies self@.namespace.contains_key(
                    #[trigger] tok_key(stream_v[kk], fname, kk),
                ) by {
                    if kk < x {
                        assert(ns_pre.contains_key(tok_key(stream_v[kk], fname, kk)));
                    }
                }
            }
            x = x + 1;
        }
        let ghost ns1 = self@.namespace;
        // second pass: emit instructions
        let mut bytecode: Vec<ByteCode> = Vec::new();
        let mut idx: usize = 0;
        proof {
            assert(bc_views(bytecode@) =~= Seq::<BcV>::empty());
        }
        while idx < n
            invariant
                n == stream_v.len(),
                self@.name == old(self)@.name,
                self@.stack == old(self)@.stack,
                self@.bytecode == old(self)@.bytecode,
                self@.stream == old(self)@.stream,
                self@.context == old(self)@.context,
                self@.namespace == ns1,
                stream_v == old(self)@.stream,
                fname == old(self)@.name,
                ns0 == old(self)@.namespace,
                ctx_has == old(self)@.context.contains_key(fname),
                idx <= n,
                forall|k: int|
                    0 <= k < stream_v.len() && (#[trigger] stream_v[k]) == TokV::Keyword(
                        FnKind::Return,
                    ) ==> k + 1 < stream_v.len(),
                forall|key: Seq<char>|
                    ns0.contains_key(key) ==> (#[trigger] ns1.contains_key(key)) && ns1[key]
                        == ns0[key],
                forall|kk: int|
                    0 <= kk < n ==> ns1.contains_key(#[trigger] tok_key(stream_v[kk], fname, kk)),
                emit_fault(stream_v, 0, ctx_has) == emit_fault(stream_v, idx as int, ctx_has),
                bytecode@.len() == emit_pos(stream_v, idx as int),
                forall|kk: int|
                    0 <= kk < idx ==> #[trigger] emit_at(
                        bc_views(bytecode@),
                        stream_v,
                        ns1,
                        fname,
                        kk,
                    ),
            decreases n - idx,
        {
            let ghost b0 = bc_views(bytecode@);
            let is_ident = matches!(&self.stream[idx], Token::Identifier(_));
            if is_ident {
                let id = self.get_id(idx);
                bytecode.push(ByteCode::CREATE_NODE(id, TypeKind::Unknown));
                proof {
                    let bnew = bc_views(bytecode@);
                    assert(bnew =~= b0.push(BcV::CreateNode(id, TyV::Unknown)));
                    assert(emit_pos(stream_v, idx + 1) == emit_pos(stream_v, idx as int)
                        + tok_emit(stream_v[idx as int]));
                    assert forall|kk: int| 0 <= kk < idx + 1 implies #[trigger] emit_at(
                        bnew,
                        stream_v,
                        ns1,
                        fname,
                        kk,
                    ) by {
                        lemma_emit_pos_nonneg(stream_v, kk);
                        if kk < idx {
                            lemma_emit_pos_mono(stream_v, kk, idx as int);
                            assert(emit_at(b0, stream_v, ns1, fname, kk));
                        }
                    }
                }
            } else {
                let f = match &self.stream[idx] {
                    Token::Keyword(k) => *k,
                    Token::Identifier(_) => {
                        proof {
                            assert(false);
                        }
                        FnKind::Stub
                    },
                };
                if matches!(f, FnKind::Return) {
                    proof {
                        assert(stream_v[idx as int] == TokV::Keyword(FnKind::Return));
                    }
                    let return_id = self.get_id(idx);
                    let arg_id = self.get_id(idx + 1);
                    bytecode.push(ByteCode::CREATE_NODE(return_id, TypeKind::InBuilt(FnKind::Return)));
                    bytecode.push(ByteCode::SET_ARGUMENT(return_id, arg_id));
                    proof {
                        let bnew = bc_views(bytecode@);
                        assert(bnew =~= b0.push(
                            BcV::CreateNode(return_id, TyV::InBuilt(FnKind::Return)),
                        ).push(BcV::SetArgument(return_id, arg_id)));
                        assert(emit_pos(stream_v, idx + 1) == emit_pos(stream_v, idx as int)
                            + tok_emit(stream_v[idx as int]));
                        assert forall|kk: int| 0 <= kk < idx + 1 implies #[trigger] emit_at(
                            bnew,
                            stream_v,
                            ns1,
                            fname,
                            kk,
                        ) by {
                            lemma_emit_pos_nonneg(stream_v, kk);
                            if kk < idx {
                                lemma_emit_pos_mono(stream_v, kk, idx as int);
                                assert(emit_at(b0, stream_v, ns1, fname, kk));
                            }
                        }
                    }
                } else if matches!(f, FnKind::Call) {
                    let name = self.name.clone();
                    let num = self.context.get(name.as_str());
                    match num {
                        Some(_) => {
                            proof {
                                assert(emit_pos(stream_v, idx + 1) == emit_pos(
                                    stream_v,
                                    idx as int,
                                ) + tok_emit(stream_v[idx as int]));
                            }
                        },
                        None => {
                            proof {
                                assert(emit_fault(stream_v, idx as int, ctx_has)
                                    == EmitFault::MissingArity);
                                assert(self@.namespace == ns1);
                                assert forall|key: Seq<char>|
                                    ns0.contains_key(key) implies self@.namespace.contains_key(
                                    key,
                                ) && self@.namespace[key] == ns0[key] by {
                                    assert(ns1.contains_key(key));
                                }
                            }
                            return Err(TypeErrors::TypeInferenceError);
                        },
                    }
                } else {
                    proof {
                        assert(emit_fault(stream_v, idx as int, ctx_has) == EmitFault::Unsupported(
                            f,
                        ));
                    }
                    return Err(TypeErrors::UnsupportedOperator(f));
                }
            }
            idx = idx + 1;
        }
        proof {
            assert(emit_fault(stream_v, n as int, ctx_has) == EmitFault::NoFault);
        }
        Ok(bytecode)
    }
}


} // verus!
