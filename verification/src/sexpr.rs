//! Tagged values, heap objects, environment frames, and the arena heap
//! with a free-list allocator.
use vstd::prelude::*;

verus! {

/// Identifiers of the built-in procedures.
#[derive(Debug, PartialEq, Eq, Clone, Copy, Structural)]
pub enum Primitive {
    Add,
    Sub,
    Mul,
    Div,
    Eql,
    Gt,
    Gte,
    Lt,
    Lte,
}

/// A tagged value. `Float` carries the IEEE-754 binary64 bit pattern of the
/// number; `Str` and `Sym` carry the byte contents; `Ref` is the address of a
/// heap object.
#[derive(Debug, PartialEq)]
pub enum SExpr {
    Nil,
    Int(i64),
    Float(u64),
    Bool(bool),
    Str(Vec<u8>),
    Sym(Vec<u8>),
    Ref(usize),
}

/// The mathematical shape of a value.
#[verifier::ext_equal]
pub enum SExprV {
    Nil,
    Int(int),
    Float(u64),
    Bool(bool),
    Str(Seq<u8>),
    Sym(Seq<u8>),
    Ref(int),
}

impl View for SExpr {
    type V = SExprV;

    open spec fn view(&self) -> SExprV {
        match self {
            SExpr::Nil => SExprV::Nil,
            SExpr::Int(i) => SExprV::Int(*i as int),
            SExpr::Float(b) => SExprV::Float(*b),
            SExpr::Bool(b) => SExprV::Bool(*b),
            SExpr::Str(s) => SExprV::Str(s@),
            SExpr::Sym(s) => SExprV::Sym(s@),
            SExpr::Ref(a) => SExprV::Ref(*a as int),
        }
    }
}

/// Byte-for-byte copy of a byte vector.
pub fn clone_bytes(v: &Vec<u8>) -> (r: Vec<u8>)
    ensures
        r@ == v@,
{
    let mut r: Vec<u8> = Vec::new();
    let mut i: usize = 0;
    while i < v.len()
        invariant
            i <= v.len(),
            r@ == v@.subrange(0, i as int),
        decreases v.len() - i,
    {
        r.push(v[i]);
        i = i + 1;
        proof {
            assert(r@ =~= v@.subrange(0, i as int));
        }
    }
    proof {
        assert(r@ =~= v@);
    }
    r
}

/// Byte-wise equality of two byte slices.
pub fn bytes_eq(a: &[u8], b: &[u8]) -> (r: bool)
    ensures
        r == (a@ == b@),
{
    if a.len() != b.len() {
        return false;
    }
    let mut i: usize = 0;
    while i < a.len()
        invariant
            i <= a.len(),
            a@.len() == b@.len(),
            forall|j: int| 0 <= j < i ==> a@[j] == b@[j],
        decreases a.len() - i,
    {
        if a[i] != b[i] {
            return false;
        }
        i = i + 1;
    }
    proof {
        assert(a@ =~= b@);
    }
    true
}

impl SExpr {
    /// Values are conceptually copyable; this returns a structurally equal copy.
    pub fn duplicate(&self) -> (r: SExpr)
        ensures
            r@ == self@,
    {
        match self {
            SExpr::Nil => SExpr::Nil,
            SExpr::Int(i) => SExpr::Int(*i),
            SExpr::Float(b) => SExpr::Float(*b),
            SExpr::Bool(b) => SExpr::Bool(*b),
            SExpr::Str(s) => SExpr::Str(clone_bytes(s)),
            SExpr::Sym(s) => SExpr::Sym(clone_bytes(s)),
            SExpr::Ref(a) => SExpr::Ref(*a),
        }
    }

    /// Truthiness: only `Bool(false)` is falsy.
    pub fn as_bool(&self) -> (r: bool)
        ensures
            r == truthy(self@),
    {
        match self {
            SExpr::Bool(b) => *b,
            _ => true,
        }
    }
}

/// Truthiness of a value: everything but `Bool(false)` is truthy.
pub open spec fn truthy(v: SExprV) -> bool {
    v != SExprV::Bool(false)
}

/// An environment frame: a mapping from symbol names to values, plus the
/// enclosing environment (`Nil` for the root, else a `Ref` to an `Env` object).
#[derive(Debug, PartialEq)]
pub struct Environment {
    env: Vec<(Vec<u8>, SExpr)>,
    enclosing: SExpr,
}

/// The mathematical shape of a frame.
#[verifier::ext_equal]
pub struct EnvironmentV {
    pub bindings: Map<Seq<u8>, SExprV>,
    pub enclosing: SExprV,
}

/// The map that an association list denotes (later entries win).
pub closed spec fn assoc_view(entries: Seq<(Vec<u8>, SExpr)>) -> Map<Seq<u8>, SExprV>
    decreases entries.len(),
{
    if entries.len() == 0 {
        Map::empty()
    } else {
        assoc_view(entries.drop_last()).insert(entries.last().0@, entries.last().1@)
    }
}

proof fn lemma_assoc_contains(entries: Seq<(Vec<u8>, SExpr)>, k: Seq<u8>)
    ensures
        assoc_view(entries).contains_key(k) <==> exists|i: int|
            0 <= i < entries.len() && entries[i].0@ == k,
    decreases entries.len(),
{
    if entries.len() > 0 {
        lemma_assoc_contains(entries.drop_last(), k);
        if entries.last().0@ == k {
            assert(entries[entries.len() - 1].0@ == k);
        } else {
            if assoc_view(entries).contains_key(k) {
                let i = choose|i: int| 0 <= i < entries.drop_last().len()
                    && entries.drop_last()[i].0@ == k;
                assert(entries[i].0@ == k);
            }
            if exists|i: int| 0 <= i < entries.len() && entries[i].0@ == k {
                let i = choose|i: int| 0 <= i < entries.len() && entries[i].0@ == k;
                assert(entries.drop_last()[i].0@ == k);
            }
        }
    }
}

proof fn lemma_assoc_get(entries: Seq<(Vec<u8>, SExpr)>, i: int)
    requires
        0 <= i < entries.len(),
        forall|p: int, q: int|
            0 <= p < q < entries.len() ==> entries[p].0@ != entries[q].0@,
    ensures
        assoc_view(entries).contains_key(entries[i].0@),
        assoc_view(entries)[entries[i].0@] == entries[i].1@,
    decreases entries.len(),
{
    if i == entries.len() - 1 {
    } else {
        assert(entries[i].0@ != entries.last().0@);
        lemma_assoc_get(entries.drop_last(), i);
        assert(entries.drop_last()[i] == entries[i]);
    }
}

impl View for Environment {
    type V = EnvironmentV;

    closed spec fn view(&self) -> EnvironmentV {
        EnvironmentV { bindings: assoc_view(self.env@), enclosing: self.enclosing@ }
    }
}

impl Environment {
    /// Well-formedness: the keys of the frame are pairwise distinct.
    pub closed spec fn wf(&self) -> bool {
        forall|p: int, q: int|
            0 <= p < q < self.env@.len() ==> self.env@[p].0@ != self.env@[q].0@
    }

    /// A fresh frame with no bindings.
    pub fn new(enclosing: SExpr) -> (r: Environment)
        ensures
            r.wf(),
            r@.bindings == Map::<Seq<u8>, SExprV>::empty(),
            r@.enclosing == enclosing@,
    {
        Environment { env: Vec::new(), enclosing }
    }

    /// A copy of the enclosing-environment value.
    pub fn enclosing_value(&self) -> (r: SExpr)
        ensures
            r@ == self@.enclosing,
    {
        self.enclosing.duplicate()
    }

    /// Look `k` up in this frame only.
    pub fn lookup_frame(&self, k: &[u8]) -> (r: Option<SExpr>)
        requires
            self.wf(),
        ensures
            match r {
                Some(v) => self@.bindings.contains_key(k@) && v@ == self@.bindings[k@],
                None => !self@.bindings.contains_key(k@),
            },
    {
        let n = self.env.len();
        let mut i: usize = 0;
        while i < n
            invariant
                self.wf(),
                n == self.env@.len(),
                i <= n,
                forall|j: int| 0 <= j < i ==> self.env@[j].0@ != k@,
            decreases n - i,
        {
            if bytes_eq(self.env[i].0.as_slice(), k) {
                proof {
                    lemma_assoc_get(self.env@, i as int);
                }
                return Some(self.env[i].1.duplicate());
            }
            i = i + 1;
        }
        proof {
            lemma_assoc_contains(self.env@, k@);
        }
        None
    }

    /// Whether this frame itself binds `k`.
    pub fn contains(&self, k: &[u8]) -> (r: bool)
        requires
            self.wf(),
        ensures
            r == self@.bindings.contains_key(k@),
    {
        match self.lookup_frame(k) {
            Some(_) => true,
            None => false,
        }
    }

    /// Bind or rebind `k` to `e` in this frame only.
    pub fn insert(&mut self, k: Vec<u8>, e: SExpr)
        requires
            old(self).wf(),
        ensures
            final(self).wf(),
            final(self)@.bindings == old(self)@.bindings.insert(k@, e@),
            final(self)@.enclosing == old(self)@.enclosing,
    {
        let n = self.env.len();
        let mut i: usize = 0;
        while i < n
            invariant
                self.wf(),
                n == self.env@.len(),
                i <= n,
                *self == *old(self),
                forall|j: int| 0 <= j < i ==> self.env@[j].0@ != k@,
            decreases n - i,
        {
            if bytes_eq(self.env[i].0.as_slice(), k.as_slice()) {
                self.env.set(i, (k, e));
                proof {
                    lemma_assoc_replace(old(self).env@, self.env@, i as int);
                    assert(final(self)@.bindings =~= old(self)@.bindings.insert(
                        self.env@[i as int].0@,
                        self.env@[i as int].1@,
                    ));
                }
                return ;
            }
            i = i + 1;
        }
        self.env.push((k, e));
        proof {
            assert(self.env@.drop_last() =~= old(self).env@);
            lemma_assoc_contains(old(self).env@, k@);
        }
    }
}

/// A heap cell. `Empty` cells form the free list; `next` is the address of
/// the next free cell, or `None` at the end of the list.
#[derive(Debug, PartialEq)]
pub enum Object {
    Pair(SExpr, SExpr),
    PrimitiveProcedure(Primitive),
    CompoundProcedure(SExpr),
    Env(Environment),
    Empty(Option<usize>),
}

/// The mathematical shape of a heap cell.
#[verifier::ext_equal]
pub enum ObjectV {
    Pair(SExprV, SExprV),
    PrimitiveProcedure(Primitive),
    CompoundProcedure(SExprV),
    Env(EnvironmentV),
    Empty(Option<int>),
}

pub open spec fn opt_view(o: Option<usize>) -> Option<int> {
    match o {
        Some(u) => Some(u as int),
        None => None,
    }
}

impl View for Object {
    type V = ObjectV;

    open spec fn view(&self) -> ObjectV {
        match self {
            Object::Pair(a, b) => ObjectV::Pair(a@, b@),
            Object::PrimitiveProcedure(p) => ObjectV::PrimitiveProcedure(*p),
            Object::CompoundProcedure(d) => ObjectV::CompoundProcedure(d@),
            Object::Env(e) => ObjectV::Env(e@),
            Object::Empty(n) => ObjectV::Empty(opt_view(*n)),
        }
    }
}

/// The arena heap: a fixed vector of cells plus the head of the free list.
/// The ghost `free_list` records the order of the free cells.
pub struct Memory {
    mem: Vec<Object>,
    first: Option<usize>,
    free_list: Ghost<Seq<usize>>,
}

/// The mathematical shape of the heap: the cells, and the free list in order.
#[verifier::ext_equal]
pub struct MemoryV {
    pub cells: Seq<ObjectV>,
    pub free: Seq<int>,
}

/// A value is grounded when any address it holds points inside the heap at a
/// cell that is not free.
pub open spec fn grounded(m: MemoryV, v: SExprV) -> bool {
    v matches SExprV::Ref(a) ==> 0 <= a < m.cells.len() && !(m.cells[a] is Empty)
}

/// Every value held inside a cell is grounded.
pub open spec fn obj_grounded(m: MemoryV, o: ObjectV) -> bool {
    match o {
        ObjectV::Pair(a, b) => grounded(m, a) && grounded(m, b),
        ObjectV::PrimitiveProcedure(_) => true,
        ObjectV::CompoundProcedure(d) => grounded(m, d),
        ObjectV::Env(e) => grounded(m, e.enclosing) && forall|k: Seq<u8>|
            #[trigger] e.bindings.contains_key(k) ==> grounded(m, e.bindings[k]),
        ObjectV::Empty(_) => true,
    }
}

/// Heap well-formedness: the free cells are exactly the `Empty` cells and are
/// chained in the order of `free`, and no cell holds a dangling or free
/// address — no reachable reference points at an `Empty` cell. Every
/// mutating operation of the heap, and evaluation as a whole, ensures this
/// invariant is preserved.
pub open spec fn mem_wf(m: MemoryV) -> bool {
    &&& forall|k: int|
        0 <= k < m.free.len() ==> 0 <= #[trigger] m.free[k] < m.cells.len()
    &&& forall|k: int|
        0 <= k < m.free.len() ==> #[trigger] m.cells[m.free[k]] == ObjectV::Empty(
            if k + 1 < m.free.len() {
                Some(m.free[k + 1])
            } else {
                None
            },
        )
    &&& forall|p: int, q: int| 0 <= p < q < m.free.len() ==> m.free[p] != m.free[q]
    &&& forall|a: int|
        0 <= a < m.cells.len() && #[trigger] m.cells[a] is Empty ==> m.free.contains(a)
    &&& forall|a: int|
        0 <= a < m.cells.len() ==> obj_grounded(m, #[trigger] m.cells[a])
}

/// Mutation never frees a cell: occupied cells stay occupied and the heap
/// keeps its size, so grounded values stay grounded.
pub open spec fn preserves(m1: MemoryV, m2: MemoryV) -> bool {
    &&& m1.cells.len() == m2.cells.len()
    &&& forall|a: int|
        0 <= a < m1.cells.len() && !(#[trigger] m1.cells[a] is Empty) ==> !(m2.cells[a] is Empty)
}

pub broadcast proof fn lemma_preserves_grounded(m1: MemoryV, m2: MemoryV, v: SExprV)
    requires
        preserves(m1, m2),
        #[trigger] grounded(m1, v),
    ensures
        #[trigger] grounded(m2, v),
{
}

impl View for Memory {
    type V = MemoryV;

    closed spec fn view(&self) -> MemoryV {
        MemoryV {
            cells: self.mem@.map_values(|o: Object| o@),
            free: self.free_list@.map_values(|u: usize| u as int),
        }
    }
}

impl Memory {
    /// Well-formedness: the view is well-formed, the `first` field heads the
    /// free list, and every environment frame has distinct keys.
    pub closed spec fn wf(&self) -> bool {
        &&& mem_wf(self@)
        &&& self.first == (if self.free_list@.len() == 0 {
            Option::<usize>::None
        } else {
            Option::<usize>::Some(self.free_list@[0])
        })
        &&& forall|a: int|
            0 <= a < self.mem@.len() && #[trigger] self.mem@[a] is Env ==> self.mem@[a]->Env_0.wf()
    }

    /// A fresh heap of `size` cells, all free, chained in address order.
    pub fn new(size: usize) -> (r: Memory)
        ensures
            r.wf(),
            r@.cells.len() == size,
            r@.free == Seq::new(size as nat, |i: int| i),
            forall|a: int| 0 <= a < size ==> r@.cells[a] is Empty,
    {
        let mut mem: Vec<Object> = Vec::new();
        let mut i: usize = 0;
        while i < size
            invariant
                i <= size,
                mem@.len() == i,
                forall|j: int|
                    0 <= j < i ==> mem@[j] == Object::Empty(
                        if j + 1 < size as int {
                            Some((j + 1) as usize)
                        } else {
                            None
                        },
                    ),
            decreases size - i,
        {
            if i + 1 < size {
                mem.push(Object::Empty(Some(i + 1)));
            } else {
                mem.push(Object::Empty(None));
            }
            i = i + 1;
        }
        let first = if size == 0 {
            None
        } else {
            Some(0)
        };
        let r = Memory {
            mem,
            first,
            free_list: Ghost(Seq::new(size as nat, |i: int| i as usize)),
        };
        proof {
            assert(r@.free =~= Seq::new(size as nat, |i: int| i));
            assert forall|k: int| 0 <= k < r@.free.len() implies #[trigger] r@.cells[r@.free[k]]
                == ObjectV::Empty(
                if k + 1 < r@.free.len() {
                    Some(r@.free[k + 1])
                } else {
                    None
                },
            ) by {
                assert(r@.free[k] == k);
                assert(r.mem@[k]@ == r@.cells[k]);
            }
            assert forall|a: int|
                0 <= a < r@.cells.len() && #[trigger] r@.cells[a] is Empty implies r@.free.contains(
                a,
            ) by {
                assert(r@.free[a] == a);
            }
        }
        r
    }

    /// Take the head of the free list, store `obj` there, and return its
    /// address; `Err` when the heap is exhausted.
    pub fn allocate(&mut self, obj: Object) -> (r: Result<SExpr, ()>)
        requires
            old(self).wf(),
            obj_grounded(old(self)@, obj@),
            !(obj@ is Empty),
            obj matches Object::Env(e) ==> e.wf(),
        ensures
            final(self).wf(),
            preserves(old(self)@, final(self)@),
            match r {
                Ok(v) => {
                    &&& old(self)@.free.len() > 0
                    &&& 0 <= old(self)@.free[0] < old(self)@.cells.len()
                    &&& v@ == SExprV::Ref(old(self)@.free[0])
                    &&& final(self)@.cells == old(self)@.cells.update(old(self)@.free[0], obj@)
                    &&& final(self)@.free == old(self)@.free.drop_first()
                },
                Err(()) => {
                    &&& old(self)@.free.len() == 0
                    &&& final(self)@ == old(self)@
                    &&& *final(self) == *old(self)
                },
            },
    {
        match self.first {
            None => Err(()),
            Some(idx) => {
                proof {
                    assert(self@.free[0] == idx as int);
                    assert(self@.cells[idx as int] == self.mem@[idx as int]@);
                }
                let next = match &self.mem[idx] {
                    Object::Empty(n) => *n,
                    _ => {
                        proof {
                            assert(false);
                        }
                        None
                    },
                };
                self.mem.set(idx, obj);
                self.first = next;
                proof {
                    self.free_list@ = self.free_list@.drop_first();
                }
                proof {
                    let m0 = old(self)@;
                    let m1 = self@;
                    assert(m1.cells =~= m0.cells.update(m0.free[0], obj@));
                    assert(m1.free =~= m0.free.drop_first());
                    lemma_alloc_wf(m0, obj@);
                    assert forall|a: int|
                        0 <= a < self.mem@.len() && #[trigger] self.mem@[a] is Env implies self
                        .mem@[a]->Env_0.wf() by {
                        if a != idx as int {
                            assert(old(self).mem@[a] == self.mem@[a]);
                            assert(old(self).mem@[a] is Env);
                        }
                    }
                }
                Ok(SExpr::Ref(idx))
            },
        }
    }

    /// `cons(a, b)` allocates a pair cell.
    pub fn cons(&mut self, left: SExpr, right: SExpr) -> (r: Result<SExpr, ()>)
        requires
            old(self).wf(),
            grounded(old(self)@, left@),
            grounded(old(self)@, right@),
        ensures
            final(self).wf(),
            preserves(old(self)@, final(self)@),
            match r {
                Ok(v) => {
                    &&& old(self)@.free.len() > 0
                    &&& 0 <= old(self)@.free[0] < old(self)@.cells.len()
                    &&& v@ == SExprV::Ref(old(self)@.free[0])
                    &&& final(self)@.cells == old(self)@.cells.update(
                        old(self)@.free[0],
                        ObjectV::Pair(left@, right@),
                    )
                    &&& final(self)@.free == old(self)@.free.drop_first()
                },
                Err(()) => {
                    &&& old(self)@.free.len() == 0
                    &&& final(self)@ == old(self)@
                },
            },
    {
        self.allocate(Object::Pair(left, right))
    }
}

/// The views of a sequence of values.
pub open spec fn seq_view(s: Seq<SExpr>) -> Seq<SExprV> {
    s.map_values(|e: SExpr| e@)
}

/// The two fields of the pair that `v` names, when it names one.
pub open spec fn pair_of(m: MemoryV, v: SExprV) -> Option<(SExprV, SExprV)> {
    match v {
        SExprV::Ref(a) => if 0 <= a < m.cells.len() {
            match m.cells[a] {
                ObjectV::Pair(x, y) => Some((x, y)),
                _ => None,
            }
        } else {
            None
        },
        _ => None,
    }
}

/// The elements of the proper list that `v` heads; `None` when `v` is not a
/// proper list. The fuel bounds the walk; a proper list in a well-formed heap
/// is never longer than the heap, so `read_list` gives it `cells.len()`.
pub open spec fn read_list_rec(m: MemoryV, v: SExprV, fuel: nat) -> Option<Seq<SExprV>>
    decreases fuel,
{
    match v {
        SExprV::Nil => Some(Seq::empty()),
        _ => match pair_of(m, v) {
            Some((x, y)) => if fuel == 0 {
                None
            } else {
                match read_list_rec(m, y, (fuel - 1) as nat) {
                    Some(s) => Some(seq![x] + s),
                    None => None,
                }
            },
            None => None,
        },
    }
}

pub open spec fn read_list(m: MemoryV, v: SExprV) -> Option<Seq<SExprV>> {
    read_list_rec(m, v, m.cells.len())
}

/// The heap and head value that building a list of `elems` produces: one pair
/// cell per element, taken from the front of the free list, the first element
/// at the old free head. `None` when the free list is too short.
pub open spec fn list_alloc(m: MemoryV, elems: Seq<SExprV>) -> Option<(MemoryV, SExprV)>
    decreases elems.len(),
{
    if elems.len() == 0 {
        Some((m, SExprV::Nil))
    } else if m.free.len() == 0 {
        None
    } else {
        let a = m.free[0];
        let m1 = MemoryV { cells: m.cells, free: m.free.drop_first() };
        match list_alloc(m1, elems.drop_first()) {
            None => None,
            Some((m2, tail)) => Some(
                (
                    MemoryV {
                        cells: m2.cells.update(a, ObjectV::Pair(elems[0], tail)),
                        free: m2.free,
                    },
                    SExprV::Ref(a),
                ),
            ),
        }
    }
}

/// The value `n` `cdr` steps down from `v`.
pub open spec fn nth_cdr(m: MemoryV, v: SExprV, n: nat) -> Option<SExprV>
    decreases n,
{
    if n == 0 {
        Some(v)
    } else {
        match pair_of(m, v) {
            Some((_x, d)) => nth_cdr(m, d, (n - 1) as nat),
            None => None,
        }
    }
}

/// The frame that `env` names, when it names one.
pub open spec fn env_frame(m: MemoryV, env: SExprV) -> Option<EnvironmentV> {
    match env {
        SExprV::Ref(a) => if 0 <= a < m.cells.len() {
            match m.cells[a] {
                ObjectV::Env(e) => Some(e),
                _ => None,
            }
        } else {
            None
        },
        _ => None,
    }
}

/// Lexical lookup: the innermost binding of `key` along the enclosing chain.
pub open spec fn env_lookup_rec(m: MemoryV, env: SExprV, key: Seq<u8>, fuel: nat) -> Option<
    SExprV,
>
    decreases fuel,
{
    match env_frame(m, env) {
        Some(f) => if f.bindings.contains_key(key) {
            Some(f.bindings[key])
        } else if fuel == 0 {
            None
        } else {
            env_lookup_rec(m, f.enclosing, key, (fuel - 1) as nat)
        },
        None => None,
    }
}

pub open spec fn env_lookup(m: MemoryV, env: SExprV, key: Seq<u8>) -> Option<SExprV> {
    env_lookup_rec(m, env, key, m.cells.len())
}

/// The heap after binding `key` to `val` in the frame that `env` names.
pub open spec fn env_insert_spec(m: MemoryV, env: SExprV, key: Seq<u8>, val: SExprV) -> Option<
    MemoryV,
> {
    match env_frame(m, env) {
        Some(f) => Some(
            MemoryV {
                cells: m.cells.update(
                    env->Ref_0,
                    ObjectV::Env(
                        EnvironmentV { bindings: f.bindings.insert(key, val), enclosing: f.enclosing },
                    ),
                ),
                free: m.free,
            },
        ),
        None => None,
    }
}

/// The heap after rebinding `key` in the innermost frame of the chain that
/// already binds it; `None` when no frame does.
pub open spec fn env_set_rec(m: MemoryV, env: SExprV, key: Seq<u8>, val: SExprV, fuel: nat) -> Option<
    MemoryV,
>
    decreases fuel,
{
    match env_frame(m, env) {
        Some(f) => if f.bindings.contains_key(key) {
            env_insert_spec(m, env, key, val)
        } else if fuel == 0 {
            None
        } else {
            env_set_rec(m, f.enclosing, key, val, (fuel - 1) as nat)
        },
        None => None,
    }
}

pub open spec fn env_set_spec(m: MemoryV, env: SExprV, key: Seq<u8>, val: SExprV) -> Option<
    MemoryV,
> {
    env_set_rec(m, env, key, val, m.cells.len())
}

/// Allocation at the free-list head keeps the heap well-formed.
proof fn lemma_alloc_wf(m: MemoryV, obj: ObjectV)
    requires
        mem_wf(m),
        obj_grounded(m, obj),
        !(obj is Empty),
        m.free.len() > 0,
    ensures
        mem_wf(MemoryV { cells: m.cells.update(m.free[0], obj), free: m.free.drop_first() }),
        preserves(m, MemoryV { cells: m.cells.update(m.free[0], obj), free: m.free.drop_first() }),
{
    let m1 = MemoryV { cells: m.cells.update(m.free[0], obj), free: m.free.drop_first() };
    assert forall|k: int| 0 <= k < m1.free.len() implies #[trigger] m1.cells[m1.free[k]]
        == ObjectV::Empty(
        if k + 1 < m1.free.len() {
            Some(m1.free[k + 1])
        } else {
            None
        },
    ) by {
        assert(m1.free[k] == m.free[k + 1]);
        assert(m.free[k + 1] != m.free[0]);
    }
    assert forall|a: int|
        0 <= a < m1.cells.len() && #[trigger] m1.cells[a] is Empty implies m1.free.contains(a) by {
        assert(m.cells[a] is Empty);
        let k = choose|k: int| 0 <= k < m.free.len() && m.free[k] == a;
        assert(k != 0);
        assert(m1.free[k - 1] == a);
    }
    assert forall|a: int|
        0 <= a < m1.cells.len() implies obj_grounded(m1, #[trigger] m1.cells[a]) by {
        assert(obj_grounded(m, m1.cells[a]));
        lemma_obj_grounded_preserved(m, m1, m1.cells[a]);
    }
}

/// `obj_grounded` carries across any heap change that `preserves`.
proof fn lemma_obj_grounded_preserved(m1: MemoryV, m2: MemoryV, o: ObjectV)
    requires
        preserves(m1, m2),
        obj_grounded(m1, o),
    ensures
        obj_grounded(m2, o),
{
}

/// Overwriting an occupied cell with a grounded occupied object keeps the
/// heap well-formed: the free list never passes through occupied cells.
proof fn lemma_update_wf(m: MemoryV, a: int, obj: ObjectV)
    requires
        mem_wf(m),
        0 <= a < m.cells.len(),
        !(m.cells[a] is Empty),
        !(obj is Empty),
        obj_grounded(m, obj),
    ensures
        mem_wf(MemoryV { cells: m.cells.update(a, obj), free: m.free }),
        preserves(m, MemoryV { cells: m.cells.update(a, obj), free: m.free }),
{
    let m1 = MemoryV { cells: m.cells.update(a, obj), free: m.free };
    assert forall|k: int| 0 <= k < m1.free.len() implies #[trigger] m1.cells[m1.free[k]]
        == ObjectV::Empty(
        if k + 1 < m1.free.len() {
            Some(m1.free[k + 1])
        } else {
            None
        },
    ) by {
        assert(m.cells[m.free[k]] is Empty);
        assert(m.free[k] != a);
    }
    assert forall|b: int|
        0 <= b < m1.cells.len() implies obj_grounded(m1, #[trigger] m1.cells[b]) by {
        assert(obj_grounded(m, m1.cells[b]));
        lemma_obj_grounded_preserved(m, m1, m1.cells[b]);
    }
}

impl Memory {
    /// A well-formed heap has a well-formed view.
    pub proof fn lemma_wf_mem_wf(&self)
        requires
            self.wf(),
        ensures
            mem_wf(self@),
    {
    }

    /// The cell at `addr`.
    pub fn get(&self, addr: usize) -> (r: &Object)
        requires
            addr < self@.cells.len(),
        ensures
            r@ == self@.cells[addr as int],
    {
        proof {
            assert(self@.cells[addr as int] == self.mem@[addr as int]@);
        }
        &self.mem[addr]
    }

    /// The number of cells in the heap.
    pub fn capacity(&self) -> (r: usize)
        ensures
            r == self@.cells.len(),
    {
        self.mem.len()
    }

    /// The first field of the pair that `pair` names; a type error otherwise.
    pub fn car(&self, pair: &SExpr) -> (r: Result<SExpr, ()>)
        ensures
            match r {
                Ok(x) => pair_of(self@, pair@) matches Some(p) && p.0 == x@,
                Err(()) => pair_of(self@, pair@) is None,
            },
    {
        if let SExpr::Ref(addr) = pair {
            if *addr < self.mem.len() {
                proof {
                    assert(self@.cells[*addr as int] == self.mem@[*addr as int]@);
                }
                if let Object::Pair(x, _y) = &self.mem[*addr] {
                    return Ok(x.duplicate());
                }
            }
        }
        Err(())
    }

    /// The second field of the pair that `pair` names; a type error otherwise.
    pub fn cdr(&self, pair: &SExpr) -> (r: Result<SExpr, ()>)
        ensures
            match r {
                Ok(y) => pair_of(self@, pair@) matches Some(p) && p.1 == y@,
                Err(()) => pair_of(self@, pair@) is None,
            },
    {
        if let SExpr::Ref(addr) = pair {
            if *addr < self.mem.len() {
                proof {
                    assert(self@.cells[*addr as int] == self.mem@[*addr as int]@);
                }
                if let Object::Pair(_x, y) = &self.mem[*addr] {
                    return Ok(y.duplicate());
                }
            }
        }
        Err(())
    }

    /// Overwrite the first field of the pair that `pair` names.
    pub fn set_car(&mut self, pair: &SExpr, value: SExpr) -> (r: Result<(), ()>)
        requires
            old(self).wf(),
            grounded(old(self)@, value@),
        ensures
            final(self).wf(),
            preserves(old(self)@, final(self)@),
            final(self)@.free == old(self)@.free,
            match r {
                Ok(()) => pair_of(old(self)@, pair@) matches Some(p) && final(self)@.cells == old(
                    self,
                )@.cells.update(pair@->Ref_0, ObjectV::Pair(value@, p.1)),
                Err(()) => pair_of(old(self)@, pair@) is None && final(self)@ == old(self)@,
            },
    {
        if let SExpr::Ref(addr) = pair {
            if *addr < self.mem.len() {
                proof {
                    assert(self@.cells[*addr as int] == self.mem@[*addr as int]@);
                }
                let cdr_copy = match &self.mem[*addr] {
                    Object::Pair(_x, y) => y.duplicate(),
                    _ => {
                        return Err(());
                    },
                };
                let ghost m0 = self@;
                let ghost a = *addr as int;
                self.mem.set(*addr, Object::Pair(value, cdr_copy));
                proof {
                    assert(self@.cells =~= m0.cells.update(
                        a,
                        ObjectV::Pair(value@, pair_of(m0, pair@)->Some_0.1),
                    ));
                    assert(self@.free =~= m0.free);
                    lemma_update_wf(m0, a, self@.cells[a]);
                    assert forall|b: int|
                        0 <= b < self.mem@.len() && #[trigger] self.mem@[b] is Env implies self
                        .mem@[b]->Env_0.wf() by {
                        assert(old(self).mem@[b] == self.mem@[b]);
                    }
                }
                return Ok(());
            }
        }
        Err(())
    }

    /// Overwrite the second field of the pair that `pair` names.
    pub fn set_cdr(&mut self, pair: &SExpr, value: SExpr) -> (r: Result<(), ()>)
        requires
            old(self).wf(),
            grounded(old(self)@, value@),
        ensures
            final(self).wf(),
            preserves(old(self)@, final(self)@),
            final(self)@.free == old(self)@.free,
            match r {
                Ok(()) => pair_of(old(self)@, pair@) matches Some(p) && final(self)@.cells == old(
                    self,
                )@.cells.update(pair@->Ref_0, ObjectV::Pair(p.0, value@)),
                Err(()) => pair_of(old(self)@, pair@) is None && final(self)@ == old(self)@,
            },
    {
        if let SExpr::Ref(addr) = pair {
            if *addr < self.mem.len() {
                proof {
                    assert(self@.cells[*addr as int] == self.mem@[*addr as int]@);
                }
                let car_copy = match &self.mem[*addr] {
                    Object::Pair(x, _y) => x.duplicate(),
                    _ => {
                        return Err(());
                    },
                };
                let ghost m0 = self@;
                let ghost a = *addr as int;
                self.mem.set(*addr, Object::Pair(car_copy, value));
                proof {
                    assert(self@.cells =~= m0.cells.update(
                        a,
                        ObjectV::Pair(pair_of(m0, pair@)->Some_0.0, value@),
                    ));
                    assert(self@.free =~= m0.free);
                    lemma_update_wf(m0, a, self@.cells[a]);
                    assert forall|b: int|
                        0 <= b < self.mem@.len() && #[trigger] self.mem@[b] is Env implies self
                        .mem@[b]->Env_0.wf() by {
                        assert(old(self).mem@[b] == self.mem@[b]);
                    }
                }
                return Ok(());
            }
        }
        Err(())
    }
}

/// In a well-formed heap every element of a proper list is grounded.
pub proof fn lemma_read_list_grounded(m: MemoryV, v: SExprV, fuel: nat)
    requires
        mem_wf(m),
        read_list_rec(m, v, fuel) is Some,
    ensures
        forall|i: int|
            0 <= i < read_list_rec(m, v, fuel)->Some_0.len() ==> grounded(
                m,
                #[trigger] read_list_rec(m, v, fuel)->Some_0[i],
            ),
    decreases fuel,
{
    let s = read_list_rec(m, v, fuel)->Some_0;
    if v is Nil {
    } else {
        let (x, y) = pair_of(m, v)->Some_0;
        let a = v->Ref_0;
        assert(obj_grounded(m, m.cells[a]));
        lemma_read_list_grounded(m, y, (fuel - 1) as nat);
        let rest = read_list_rec(m, y, (fuel - 1) as nat)->Some_0;
        assert forall|i: int| 0 <= i < s.len() implies grounded(m, #[trigger] s[i]) by {
            if i > 0 {
                assert(s[i] == rest[i - 1]);
            }
        }
    }
}

/// `list_alloc` consumes exactly one free cell per element and keeps the
/// heap's size.
pub proof fn lemma_list_alloc_shape(m: MemoryV, elems: Seq<SExprV>)
    requires
        forall|k: int| 0 <= k < m.free.len() ==> 0 <= #[trigger] m.free[k] < m.cells.len(),
    ensures
        match list_alloc(m, elems) {
            Some((m2, _v)) => m2.cells.len() == m.cells.len() && m2.free == m.free.skip(
                elems.len() as int,
            ) && elems.len() <= m.free.len(),
            None => m.free.len() < elems.len(),
        },
    decreases elems.len(),
{
    if elems.len() == 0 {
        assert(m.free.skip(0) =~= m.free);
    } else if m.free.len() == 0 {
    } else {
        let m1 = MemoryV { cells: m.cells, free: m.free.drop_first() };
        assert forall|k: int|
            0 <= k < m1.free.len() implies 0 <= #[trigger] m1.free[k] < m1.cells.len() by {
            assert(m1.free[k] == m.free[k + 1]);
        }
        lemma_list_alloc_shape(m1, elems.drop_first());
        match list_alloc(m1, elems.drop_first()) {
            None => {},
            Some((m2, _tail)) => {
                assert(0 <= m.free[0] < m2.cells.len());
                assert(m1.free.skip(elems.len() - 1) =~= m.free.skip(elems.len() as int));
            },
        }
    }
}

/// Building a list reads nothing of the occupied cells: a background update
/// of an occupied cell commutes with `list_alloc`.
proof fn lemma_list_alloc_indep(m: MemoryV, a: int, o: ObjectV, elems: Seq<SExprV>)
    requires
        0 <= a < m.cells.len(),
        !m.free.contains(a),
        forall|k: int| 0 <= k < m.free.len() ==> 0 <= #[trigger] m.free[k] < m.cells.len(),
    ensures
        ({
            let mu = MemoryV { cells: m.cells.update(a, o), free: m.free };
            match list_alloc(m, elems) {
                None => list_alloc(mu, elems) is None,
                Some((m2, v)) => list_alloc(mu, elems) == Some(
                    (MemoryV { cells: m2.cells.update(a, o), free: m2.free }, v),
                ),
            }
        }),
    decreases elems.len(),
{
    let mu = MemoryV { cells: m.cells.update(a, o), free: m.free };
    if elems.len() == 0 {
        assert(mu.cells =~= m.cells.update(a, o));
    } else if m.free.len() == 0 {
    } else {
        let h = m.free[0];
        assert(m.free.contains(h)) by {
            assert(m.free[0] == h);
        }
        assert(a != h);
        let m1 = MemoryV { cells: m.cells, free: m.free.drop_first() };
        let m1u = MemoryV { cells: mu.cells, free: mu.free.drop_first() };
        assert(m1u =~= MemoryV { cells: m1.cells.update(a, o), free: m1.free });
        assert(!m1.free.contains(a)) by {
            if m1.free.contains(a) {
                let k = choose|k: int| 0 <= k < m1.free.len() && m1.free[k] == a;
                assert(m.free[k + 1] == a);
            }
        }
        lemma_list_alloc_indep(m1, a, o, elems.drop_first());
        match list_alloc(m1, elems.drop_first()) {
            None => {
                assert(list_alloc(m1u, elems.drop_first()) is None);
                assert(list_alloc(mu, elems) is None);
            },
            Some((m2, tail)) => {
                lemma_list_alloc_shape(m1, elems.drop_first());
                assert(m2.cells.len() == m.cells.len());
                assert(list_alloc(m1u, elems.drop_first()) == Some(
                    (MemoryV { cells: m2.cells.update(a, o), free: m2.free }, tail),
                ));
                assert(m2.cells.update(a, o).update(h, ObjectV::Pair(elems[0], tail))
                    =~= m2.cells.update(h, ObjectV::Pair(elems[0], tail)).update(a, o));
                assert(list_alloc(mu, elems) == Some(
                    (
                        MemoryV {
                            cells: m2.cells.update(a, o).update(h, ObjectV::Pair(elems[0], tail)),
                            free: m2.free,
                        },
                        SExprV::Ref(h),
                    ),
                ));
            },
        }
    }
}

impl Memory {
    /// Walk a proper list collecting its elements; a type error when the
    /// chain ends in anything but `Nil` or revisits cells for longer than the
    /// heap is large (a cycle).
    pub fn vec_from_list(&self, list: &SExpr) -> (r: Result<Vec<SExpr>, ()>)
        ensures
            match r {
                Ok(vs) => read_list(self@, list@) == Some(seq_view(vs@)),
                Err(()) => read_list(self@, list@) is None,
            },
    {
        let fuel = self.mem.len();
        proof {
            assert(self@.cells.len() == self.mem@.len());
        }
        self.read_list_fueled(list, fuel)
    }

    fn read_list_fueled(&self, v: &SExpr, fuel: usize) -> (r: Result<Vec<SExpr>, ()>)
        ensures
            match r {
                Ok(vs) => read_list_rec(self@, v@, fuel as nat) == Some(seq_view(vs@)),
                Err(()) => read_list_rec(self@, v@, fuel as nat) is None,
            },
        decreases fuel,
    {
        match v {
            SExpr::Nil => {
                let r: Vec<SExpr> = Vec::new();
                proof {
                    assert(seq_view(r@) =~= Seq::<SExprV>::empty());
                }
                Ok(r)
            },
            _ => {
                let x = match self.car(v) {
                    Ok(x) => x,
                    Err(()) => {
                        return Err(());
                    },
                };
                let y = match self.cdr(v) {
                    Ok(y) => y,
                    Err(()) => {
                        proof {
                            assert(false);
                        }
                        return Err(());
                    },
                };
                if fuel == 0 {
                    return Err(());
                }
                match self.read_list_fueled(&y, fuel - 1) {
                    Ok(mut rest) => {
                        let ghost tail = rest@;
                        rest.insert(0, x);
                        proof {
                            assert(seq_view(rest@) =~= seq![x@] + seq_view(tail));
                        }
                        Ok(rest)
                    },
                    Err(()) => Err(()),
                }
            },
        }
    }

    /// Whether at least `n` cells are free.
    pub fn free_at_least(&self, n: usize) -> (r: bool)
        requires
            self.wf(),
        ensures
            r == (self@.free.len() >= n),
    {
        let mut cur: Option<usize> = self.first;
        let mut count: usize = 0;
        while count < n
            invariant
                self.wf(),
                count <= n,
                count <= self@.free.len(),
                cur == (if count < self@.free.len() {
                    Some(self@.free[count as int] as usize)
                } else {
                    Option::<usize>::None
                }),
            decreases n - count,
        {
            match cur {
                None => {
                    return false;
                },
                Some(i) => {
                    proof {
                        assert(self@.cells[self@.free[count as int]] == self.mem@[i as int]@);
                    }
                    cur = match &self.mem[i] {
                        Object::Empty(next) => *next,
                        _ => {
                            proof {
                                assert(false);
                            }
                            None
                        },
                    };
                    count = count + 1;
                },
            }
        }
        true
    }

    /// Build a proper list of the elements of `vec`, head cell first; `Err`
    /// when the free list is too short, with the heap unchanged.
    pub fn list_from_vec(&mut self, vec: Vec<SExpr>) -> (r: Result<SExpr, ()>)
        requires
            old(self).wf(),
            forall|j: int| 0 <= j < vec@.len() ==> grounded(old(self)@, #[trigger] vec@[j]@),
        ensures
            final(self).wf(),
            preserves(old(self)@, final(self)@),
            match r {
                Ok(v) => list_alloc(old(self)@, seq_view(vec@)) == Some((final(self)@, v@))
                    && grounded(final(self)@, v@),
                Err(()) => list_alloc(old(self)@, seq_view(vec@)) is None && final(self)@ == old(
                    self,
                )@,
            },
    {
        proof {
            assert(seq_view(vec@).skip(0) =~= seq_view(vec@));
            lemma_list_alloc_shape(old(self)@, seq_view(vec@));
        }
        if !self.free_at_least(vec.len()) {
            return Err(());
        }
        match self.list_from_slice(&vec, 0) {
            Ok(v) => Ok(v),
            Err(()) => {
                proof {
                    assert(false);
                }
                Err(())
            },
        }
    }

    fn list_from_slice(&mut self, elems: &Vec<SExpr>, i: usize) -> (r: Result<SExpr, ()>)
        requires
            old(self).wf(),
            i <= elems@.len(),
            forall|j: int| 0 <= j < elems@.len() ==> grounded(old(self)@, #[trigger] elems@[j]@),
        ensures
            final(self).wf(),
            preserves(old(self)@, final(self)@),
            match r {
                Ok(v) => list_alloc(old(self)@, seq_view(elems@).skip(i as int)) == Some(
                    (final(self)@, v@),
                ) && grounded(final(self)@, v@),
                Err(()) => list_alloc(old(self)@, seq_view(elems@).skip(i as int)) is None,
            },
        decreases elems@.len() - i,
    {
        if i == elems.len() {
            proof {
                assert(seq_view(elems@).skip(i as int) =~= Seq::<SExprV>::empty());
            }
            return Ok(SExpr::Nil);
        }
        let ghost m0 = self@;
        let ghost rest = seq_view(elems@).skip(i as int);
        let head = match self.cons(elems[i].duplicate(), SExpr::Nil) {
            Ok(h) => h,
            Err(()) => {
                return Err(());
            },
        };
        let ghost a = m0.free[0];
        let ghost m1 = MemoryV { cells: m0.cells, free: m0.free.drop_first() };
        let ghost m1u = MemoryV {
            cells: m1.cells.update(a, ObjectV::Pair(elems@[i as int]@, SExprV::Nil)),
            free: m1.free,
        };
        proof {
            assert(self@.cells =~= m1u.cells);
            assert(self@.free =~= m1u.free);
            assert(self@ =~= m1u);
            assert(!m1.free.contains(a)) by {
                if m1.free.contains(a) {
                    let k = choose|k: int| 0 <= k < m1.free.len() && m1.free[k] == a;
                    assert(m0.free[k + 1] == a);
                    assert(m0.free[0] == a);
                }
            }
            assert forall|j: int|
                0 <= j < elems@.len() implies grounded(self@, #[trigger] elems@[j]@) by {
                lemma_preserves_grounded(m0, self@, elems@[j]@);
            }
            assert forall|k: int|
                0 <= k < m1.free.len() implies 0 <= #[trigger] m1.free[k] < m1.cells.len() by {
                assert(m1.free[k] == m0.free[k + 1]);
            }
            lemma_list_alloc_indep(m1, a, ObjectV::Pair(elems@[i as int]@, SExprV::Nil), rest.drop_first());
            assert(rest.drop_first() =~= seq_view(elems@).skip(i as int + 1));
        }
        match self.list_from_slice(elems, i + 1) {
            Err(()) => {
                proof {
                    assert(list_alloc(m0, rest) is None);
                }
                Err(())
            },
            Ok(tail) => {
                let ghost m2u = self@;
                let ghost tail_spec = list_alloc(m1, rest.drop_first());
                proof {
                    assert(list_alloc(m1u, rest.drop_first()) == Some((m2u, tail@)));
                    assert(tail_spec is Some);
                    lemma_list_alloc_shape(m1, rest.drop_first());
                    let (m2, tv) = tail_spec->Some_0;
                    assert(m2.cells.len() == m0.cells.len());
                    assert(0 <= a < m2.cells.len());
                    assert(list_alloc(m1u, rest.drop_first()) == Some(
                        (MemoryV { cells: m2.cells.update(a, ObjectV::Pair(elems@[i as int]@, SExprV::Nil)), free: m2.free }, tv),
                    ));
                    assert(m2u.cells == m2.cells.update(a, ObjectV::Pair(elems@[i as int]@, SExprV::Nil)));
                    assert(m2u.cells[a] == ObjectV::Pair(elems@[i as int]@, SExprV::Nil));
                    assert(pair_of(m2u, head@) is Some);
                }
                match self.set_cdr(&head, tail) {
                    Ok(()) => {
                        proof {
                            let (m2, tv) = tail_spec->Some_0;
                            assert(tail@ == tv);
                            assert(self@.cells =~= m2.cells.update(
                                a,
                                ObjectV::Pair(elems@[i as int]@, tv),
                            ));
                            assert(self@.free =~= m2.free);
                            assert(rest[0] == elems@[i as int]@);
                            assert(self@ =~= MemoryV {
                                cells: m2.cells.update(a, ObjectV::Pair(rest[0], tv)),
                                free: m2.free,
                            });
                            assert(list_alloc(m0, rest) == Some((self@, head@)));
                        }
                        Ok(head)
                    },
                    Err(()) => {
                        proof {
                            assert(false);
                        }
                        Err(())
                    },
                }
            },
        }
    }

    /// Walk `n` `cdr` steps from `e`.
    pub fn get_nth_ref(&self, e: &SExpr, n: usize) -> (r: Result<SExpr, ()>)
        ensures
            match r {
                Ok(v) => nth_cdr(self@, e@, n as nat) == Some(v@),
                Err(()) => nth_cdr(self@, e@, n as nat) is None,
            },
        decreases n,
    {
        if n == 0 {
            return Ok(e.duplicate());
        }
        match self.cdr(e) {
            Ok(d) => self.get_nth_ref(&d, n - 1),
            Err(()) => Err(()),
        }
    }
}

impl Memory {
    /// Lexical lookup of `k` along the chain headed by `e`.
    pub fn env_get(&self, k: &[u8], e: &SExpr) -> (r: Result<SExpr, ()>)
        requires
            self.wf(),
        ensures
            match r {
                Ok(v) => env_lookup(self@, e@, k@) == Some(v@) && grounded(self@, v@),
                Err(()) => env_lookup(self@, e@, k@) is None,
            },
    {
        let fuel = self.mem.len();
        proof {
            assert(self@.cells.len() == self.mem@.len());
        }
        self.env_get_fueled(k, e, fuel)
    }

    fn env_get_fueled(&self, k: &[u8], e: &SExpr, fuel: usize) -> (r: Result<SExpr, ()>)
        requires
            self.wf(),
        ensures
            match r {
                Ok(v) => env_lookup_rec(self@, e@, k@, fuel as nat) == Some(v@) && grounded(
                    self@,
                    v@,
                ),
                Err(()) => env_lookup_rec(self@, e@, k@, fuel as nat) is None,
            },
        decreases fuel,
    {
        if let SExpr::Ref(addr) = e {
            if *addr < self.mem.len() {
                proof {
                    assert(self@.cells[*addr as int] == self.mem@[*addr as int]@);
                }
                if let Object::Env(fr) = &self.mem[*addr] {
                    proof {
                        assert(env_frame(self@, e@) == Some(fr@));
                        assert(obj_grounded(self@, self@.cells[*addr as int]));
                    }
                    match fr.lookup_frame(k) {
                        Some(v) => {
                            return Ok(v);
                        },
                        None => {
                            if fuel == 0 {
                                return Err(());
                            }
                            let enc = fr.enclosing_value();
                            return self.env_get_fueled(k, &enc, fuel - 1);
                        },
                    }
                }
            }
        }
        Err(())
    }

    /// Bind or rebind `k` to `e` in the frame that `env` names, only.
    pub fn env_insert(&mut self, env: &SExpr, k: Vec<u8>, e: SExpr) -> (r: Result<(), ()>)
        requires
            old(self).wf(),
            grounded(old(self)@, e@),
        ensures
            final(self).wf(),
            preserves(old(self)@, final(self)@),
            final(self)@.free == old(self)@.free,
            match r {
                Ok(()) => env_insert_spec(old(self)@, env@, k@, e@) == Some(final(self)@),
                Err(()) => env_insert_spec(old(self)@, env@, k@, e@) is None && final(self)@ == old(
                    self,
                )@,
            },
    {
        if let SExpr::Ref(addr) = env {
            if *addr < self.mem.len() {
                proof {
                    assert(self@.cells[*addr as int] == self.mem@[*addr as int]@);
                }
                let ghost m0 = self@;
                let ghost a = *addr as int;
                let mut slot = Object::Empty(None);
                self.mem.set_and_swap(*addr, &mut slot);
                match slot {
                    Object::Env(mut fr) => {
                        proof {
                            assert(m0.cells[a] == ObjectV::Env(fr@));
                            assert(old(self).wf());
                            assert(old(self).mem@[a] is Env);
                            assert(old(self).mem@[a]->Env_0 == fr);
                        }
                        let ghost fr0 = fr@;
                        fr.insert(k, e);
                        let mut back = Object::Env(fr);
                        self.mem.set_and_swap(*addr, &mut back);
                        proof {
                            let mf = MemoryV {
                                cells: m0.cells.update(
                                    a,
                                    ObjectV::Env(
                                        EnvironmentV {
                                            bindings: fr0.bindings.insert(k@, e@),
                                            enclosing: fr0.enclosing,
                                        },
                                    ),
                                ),
                                free: m0.free,
                            };
                            assert(self@.cells =~= mf.cells);
                            assert(self@.free =~= mf.free);
                            assert(self@ =~= mf);
                            assert(env_insert_spec(m0, env@, k@, e@) == Some(mf));
                            assert(obj_grounded(m0, mf.cells[a])) by {
                                assert(obj_grounded(m0, m0.cells[a]));
                                assert forall|k2: Seq<u8>|
                                    #[trigger] mf.cells[a]->Env_0.bindings.contains_key(
                                        k2,
                                    ) implies grounded(m0, mf.cells[a]->Env_0.bindings[k2]) by {
                                    if k2 != k@ {
                                        assert(fr0.bindings.contains_key(k2));
                                    }
                                }
                            }
                            lemma_update_wf(m0, a, mf.cells[a]);
                            assert forall|b: int|
                                0 <= b < self.mem@.len() && #[trigger] self.mem@[b]
                                    is Env implies self.mem@[b]->Env_0.wf() by {
                                if b != a {
                                    assert(old(self).mem@[b] == self.mem@[b]);
                                }
                            }
                        }
                        Ok(())
                    },
                    other => {
                        self.mem.set(*addr, other);
                        proof {
                            assert(self@.cells =~= m0.cells);
                            assert(self@.free =~= m0.free);
                            assert(self@ =~= m0);
                        }
                        Err(())
                    },
                }
            } else {
                Err(())
            }
        } else {
            Err(())
        }
    }

    /// Rebind `k` in the innermost frame of the chain headed by `env` that
    /// already binds it; `Err` when no frame does.
    pub fn env_set(&mut self, env: &SExpr, k: &[u8], v: SExpr) -> (r: Result<(), ()>)
        requires
            old(self).wf(),
            grounded(old(self)@, v@),
        ensures
            final(self).wf(),
            preserves(old(self)@, final(self)@),
            final(self)@.free == old(self)@.free,
            match r {
                Ok(()) => env_set_spec(old(self)@, env@, k@, v@) == Some(final(self)@),
                Err(()) => env_set_spec(old(self)@, env@, k@, v@) is None && final(self)@ == old(
                    self,
                )@,
            },
    {
        let fuel = self.mem.len();
        proof {
            assert(self@.cells.len() == self.mem@.len());
        }
        self.env_set_fueled(env, k, &v, fuel)
    }

    fn env_set_fueled(&mut self, env: &SExpr, k: &[u8], v: &SExpr, fuel: usize) -> (r: Result<
        (),
        (),
    >)
        requires
            old(self).wf(),
            grounded(old(self)@, v@),
        ensures
            final(self).wf(),
            preserves(old(self)@, final(self)@),
            final(self)@.free == old(self)@.free,
            match r {
                Ok(()) => env_set_rec(old(self)@, env@, k@, v@, fuel as nat) == Some(final(self)@),
                Err(()) => env_set_rec(old(self)@, env@, k@, v@, fuel as nat) is None
                    && final(self)@ == old(self)@,
            },
        decreases fuel,
    {
        if let SExpr::Ref(addr) = env {
            if *addr < self.mem.len() {
                proof {
                    assert(self@.cells[*addr as int] == self.mem@[*addr as int]@);
                }
                let (has, enc) = match &self.mem[*addr] {
                    Object::Env(fr) => {
                        proof {
                            assert(env_frame(self@, env@) == Some(fr@));
                        }
                        (fr.contains(k), fr.enclosing_value())
                    },
                    _ => {
                        return Err(());
                    },
                };
                if has {
                    let kvec = vstd::slice::slice_to_vec(k);
                    match self.env_insert(env, kvec, v.duplicate()) {
                        Ok(()) => {
                            return Ok(());
                        },
                        Err(()) => {
                            proof {
                                assert(false);
                            }
                            return Err(());
                        },
                    }
                } else if fuel == 0 {
                    return Err(());
                } else {
                    return self.env_set_fueled(&enc, k, v, fuel - 1);
                }
            }
        }
        Err(())
    }
}

impl Environment {
    /// Look `k` up in this frame, falling back to the chain through the
    /// enclosing environment in `mem`.
    pub fn get(&self, k: &[u8], mem: &Memory) -> (r: Result<SExpr, ()>)
        requires
            self.wf(),
            mem.wf(),
        ensures
            match r {
                Ok(v) => if self@.bindings.contains_key(k@) {
                    v@ == self@.bindings[k@]
                } else {
                    env_lookup(mem@, self@.enclosing, k@) == Some(v@)
                },
                Err(()) => !self@.bindings.contains_key(k@) && env_lookup(
                    mem@,
                    self@.enclosing,
                    k@,
                ) is None,
            },
    {
        match self.lookup_frame(k) {
            Some(v) => Ok(v),
            None => mem.env_get(k, &self.enclosing),
        }
    }

    /// Rebind `k` here if this frame binds it, else in the innermost binding
    /// frame of the chain through the enclosing environment.
    pub fn set(&mut self, k: &[u8], e: SExpr, mem: &mut Memory) -> (r: Result<(), ()>)
        requires
            old(self).wf(),
            old(mem).wf(),
            grounded(old(mem)@, e@),
        ensures
            final(self).wf(),
            final(mem).wf(),
            preserves(old(mem)@, final(mem)@),
            final(self)@.enclosing == old(self)@.enclosing,
            match r {
                Ok(()) => if old(self)@.bindings.contains_key(k@) {
                    final(self)@.bindings == old(self)@.bindings.insert(k@, e@) && *final(mem)
                        == *old(mem)
                } else {
                    *final(self) == *old(self) && env_set_spec(
                        old(mem)@,
                        old(self)@.enclosing,
                        k@,
                        e@,
                    ) == Some(final(mem)@)
                },
                Err(()) => !old(self)@.bindings.contains_key(k@) && env_set_spec(
                    old(mem)@,
                    old(self)@.enclosing,
                    k@,
                    e@,
                ) is None && *final(self) == *old(self) && final(mem)@ == old(mem)@,
            },
    {
        if self.contains(k) {
            let kvec = vstd::slice::slice_to_vec(k);
            self.insert(kvec, e);
            Ok(())
        } else {
            mem.env_set(&self.enclosing, k, e)
        }
    }
}

/// In a well-formed heap the free list cannot be longer than the heap: its
/// entries are distinct addresses.
pub proof fn lemma_free_len_bound(m: MemoryV)
    requires
        mem_wf(m),
    ensures
        m.free.len() <= m.cells.len(),
{
    broadcast use vstd::seq_lib::seq_to_set_is_finite;

    let s = m.free;
    assert(s.no_duplicates());
    s.unique_seq_to_set();
    let range = vstd::set_lib::set_int_range(0, m.cells.len() as int);
    assert(s.to_set().subset_of(range)) by {
        assert forall|x: int| s.to_set().contains(x) implies range.contains(x) by {
            let i = choose|i: int| 0 <= i < s.len() && s[i] == x;
            assert(0 <= s[i] < m.cells.len());
        }
    }
    vstd::set_lib::lemma_int_range(0, m.cells.len() as int);
    vstd::set_lib::lemma_len_subset(s.to_set(), range);
}

/// Reading back a freshly built list sees only the cells the build wrote:
/// any heap that agrees on those cells reads the same elements.
proof fn lemma_list_alloc_read_frame(m: MemoryV, elems: Seq<SExprV>, mx: MemoryV, fuel: nat)
    requires
        forall|k: int| 0 <= k < m.free.len() ==> 0 <= #[trigger] m.free[k] < m.cells.len(),
        forall|p: int, q: int| 0 <= p < q < m.free.len() ==> m.free[p] != m.free[q],
        list_alloc(m, elems) is Some,
        fuel >= elems.len(),
        mx.cells.len() == m.cells.len(),
        forall|k: int|
            0 <= k < elems.len() ==> #[trigger] mx.cells[m.free[k]] == list_alloc(
                m,
                elems,
            )->Some_0.0.cells[m.free[k]],
    ensures
        read_list_rec(mx, list_alloc(m, elems)->Some_0.1, fuel) == Some(elems),
    decreases elems.len(),
{
    if elems.len() == 0 {
    } else {
        let a = m.free[0];
        let m1 = MemoryV { cells: m.cells, free: m.free.drop_first() };
        assert forall|k: int|
            0 <= k < m1.free.len() implies 0 <= #[trigger] m1.free[k] < m1.cells.len() by {
            assert(m1.free[k] == m.free[k + 1]);
        }
        let (m2t, tailv) = list_alloc(m1, elems.drop_first())->Some_0;
        let m2 = MemoryV {
            cells: m2t.cells.update(a, ObjectV::Pair(elems[0], tailv)),
            free: m2t.free,
        };
        lemma_list_alloc_shape(m1, elems.drop_first());
        assert(m2t.cells.len() == m.cells.len());
        assert(m2.cells[a] == ObjectV::Pair(elems[0], tailv));
        assert(mx.cells[a] == m2.cells[a]);
        assert forall|k: int|
            0 <= k < elems.drop_first().len() implies #[trigger] mx.cells[m1.free[k]]
            == list_alloc(m1, elems.drop_first())->Some_0.0.cells[m1.free[k]] by {
            assert(m1.free[k] == m.free[k + 1]);
            assert(m.free[k + 1] != a);
            assert(mx.cells[m.free[k + 1]] == m2.cells[m.free[k + 1]]);
        }
        lemma_list_alloc_read_frame(m1, elems.drop_first(), mx, (fuel - 1) as nat);
        assert(read_list_rec(mx, SExprV::Ref(a), fuel) == Some(
            seq![elems[0]] + elems.drop_first(),
        ));
        assert(seq![elems[0]] + elems.drop_first() =~= elems);
    }
}

/// What `list_alloc` builds, `read_list` reads back: the round trip at the
/// level of the heap model.
pub proof fn lemma_list_alloc_read(m: MemoryV, elems: Seq<SExprV>, fuel: nat)
    requires
        forall|k: int| 0 <= k < m.free.len() ==> 0 <= #[trigger] m.free[k] < m.cells.len(),
        forall|p: int, q: int| 0 <= p < q < m.free.len() ==> m.free[p] != m.free[q],
        list_alloc(m, elems) is Some,
        fuel >= elems.len(),
    ensures
        read_list_rec(list_alloc(m, elems)->Some_0.0, list_alloc(m, elems)->Some_0.1, fuel)
            == Some(elems),
{
    lemma_list_alloc_shape(m, elems);
    lemma_list_alloc_read_frame(m, elems, list_alloc(m, elems)->Some_0.0, fuel);
}

impl Memory {
    /// The list round trip: building a proper list from a vector of values
    /// and walking it back yields the same vector. It holds for every vector
    /// of (non-dangling) values, whenever the arena has room for it.
    pub fn list_round_trip(&mut self, xs: Vec<SExpr>) -> (r: Result<Vec<SExpr>, ()>)
        requires
            old(self).wf(),
            old(self)@.free.len() >= xs@.len(),
            forall|j: int| 0 <= j < xs@.len() ==> grounded(old(self)@, #[trigger] xs@[j]@),
        ensures
            final(self).wf(),
            r matches Ok(ys) && seq_view(ys@) == seq_view(xs@),
    {
        let ghost m0 = self@;
        let ghost xsv = seq_view(xs@);
        proof {
            old(self).lemma_wf_mem_wf();
            lemma_list_alloc_shape(m0, xsv);
            lemma_free_len_bound(m0);
        }
        let v = match self.list_from_vec(xs) {
            Ok(v) => v,
            Err(()) => {
                proof {
                    assert(false);
                }
                return Err(());
            },
        };
        proof {
            lemma_list_alloc_read(m0, xsv, m0.cells.len());
            assert(self@.cells.len() == m0.cells.len());
        }
        match self.vec_from_list(&v) {
            Ok(ys) => Ok(ys),
            Err(()) => {
                proof {
                    assert(false);
                }
                Err(())
            },
        }
    }
}

/// The decimal digits of a natural number, most significant first.
pub open spec fn nat_text(n: nat) -> Seq<u8>
    decreases n,
{
    if n < 10 {
        seq![(('0' as u8) + n) as u8]
    } else {
        nat_text(n / 10) + seq![(('0' as u8) + n % 10) as u8]
    }
}

/// The decimal text of an integer.
pub open spec fn int_text(i: int) -> Seq<u8> {
    if i < 0 {
        seq!['-' as u8] + nat_text((-i) as nat)
    } else {
        nat_text(i as nat)
    }
}

fn nat_text_exec(n: u64) -> (r: Vec<u8>)
    ensures
        r@ == nat_text(n as nat),
    decreases n,
{
    if n < 10 {
        let mut v: Vec<u8> = Vec::new();
        v.push('0' as u8 + n as u8);
        proof {
            assert(v@ =~= nat_text(n as nat));
        }
        v
    } else {
        let mut v = nat_text_exec(n / 10);
        v.push('0' as u8 + (n % 10) as u8);
        proof {
            assert(v@ =~= nat_text((n / 10) as nat) + seq![(('0' as u8) + (n as nat) % 10) as u8]);
        }
        v
    }
}

/// The decimal text of a 64-bit integer.
pub fn int_text_exec(i: i64) -> (r: Vec<u8>)
    ensures
        r@ == int_text(i as int),
{
    if i >= 0 {
        nat_text_exec(i as u64)
    } else {
        let mag: u64 = ((-(i + 1)) as u64) + 1;
        let mut v: Vec<u8> = Vec::new();
        v.push('-' as u8);
        let mut digits = nat_text_exec(mag);
        v.append(&mut digits);
        proof {
            assert(v@ =~= seq!['-' as u8] + nat_text(mag as nat));
        }
        v
    }
}

/// The tag that non-pair heap objects print as.
pub open spec fn object_tag() -> Seq<u8> {
    seq![
        '#' as u8,
        '[' as u8,
        'o' as u8,
        'b' as u8,
        'j' as u8,
        'e' as u8,
        'c' as u8,
        't' as u8,
        ']' as u8,
    ]
}

fn object_tag_vec() -> (r: Vec<u8>)
    ensures
        r@ == object_tag(),
{
    let mut v: Vec<u8> = Vec::new();
    v.push('#' as u8);
    v.push('[' as u8);
    v.push('o' as u8);
    v.push('b' as u8);
    v.push('j' as u8);
    v.push('e' as u8);
    v.push('c' as u8);
    v.push('t' as u8);
    v.push(']' as u8);
    proof {
        assert(v@ =~= object_tag());
    }
    v
}

/// The text of `true` and `false`.
pub open spec fn bool_text(b: bool) -> Seq<u8> {
    if b {
        seq!['t' as u8, 'r' as u8, 'u' as u8, 'e' as u8]
    } else {
        seq!['f' as u8, 'a' as u8, 'l' as u8, 's' as u8, 'e' as u8]
    }
}

fn bool_text_vec(b: bool) -> (r: Vec<u8>)
    ensures
        r@ == bool_text(b),
{
    let mut v: Vec<u8> = Vec::new();
    if b {
        v.push('t' as u8);
        v.push('r' as u8);
        v.push('u' as u8);
        v.push('e' as u8);
    } else {
        v.push('f' as u8);
        v.push('a' as u8);
        v.push('l' as u8);
        v.push('s' as u8);
        v.push('e' as u8);
    }
    proof {
        assert(v@ =~= bool_text(b));
    }
    v
}

/// The printed text of a value: atoms as themselves, proper lists in
/// parentheses, dotted pairs with a dot; procedures, environments and free
/// cells as an opaque tag. The fuel cuts off cyclic structures.
pub open spec fn print_val(m: MemoryV, v: SExprV, fuel: nat) -> Seq<u8>
    decreases fuel, 0nat,
{
    match v {
        SExprV::Nil => seq!['(' as u8, ')' as u8],
        SExprV::Int(i) => int_text(i),
        SExprV::Float(b) => crate::numerics::decimal_of_bits(b),
        SExprV::Bool(b) => bool_text(b),
        SExprV::Str(s) => s,
        SExprV::Sym(s) => s,
        SExprV::Ref(_a) => match pair_of(m, v) {
            Some((x, y)) => if fuel == 0 {
                object_tag()
            } else {
                seq!['(' as u8] + print_pair(m, x, y, (fuel - 1) as nat)
            },
            None => object_tag(),
        },
    }
}

/// The inside of a printed pair: the first field, then the rest of the
/// list, a closing parenthesis after `Nil`, or a dotted tail.
pub open spec fn print_pair(m: MemoryV, x: SExprV, y: SExprV, fuel: nat) -> Seq<u8>
    decreases fuel, 1nat,
{
    let head = print_val(m, x, fuel);
    match y {
        SExprV::Nil => head + seq![')' as u8],
        _ => match pair_of(m, y) {
            Some((x2, y2)) => if fuel == 0 {
                head + seq![' ' as u8] + object_tag() + seq![')' as u8]
            } else {
                head + seq![' ' as u8] + print_pair(m, x2, y2, (fuel - 1) as nat)
            },
            None => head + seq![' ' as u8, '.' as u8, ' ' as u8] + print_val(m, y, fuel) + seq![
                ')' as u8,
            ],
        },
    }
}

fn print_val_exec(mem: &Memory, v: &SExpr, fuel: u128) -> (r: Vec<u8>)
    ensures
        r@ == print_val(mem@, v@, fuel as nat),
    decreases fuel, 0nat,
{
    match v {
        SExpr::Nil => {
            let mut out: Vec<u8> = Vec::new();
            out.push('(' as u8);
            out.push(')' as u8);
            proof {
                assert(out@ =~= seq!['(' as u8, ')' as u8]);
            }
            out
        },
        SExpr::Int(i) => int_text_exec(*i),
        SExpr::Float(b) => crate::numerics::f64_format(*b),
        SExpr::Bool(b) => bool_text_vec(*b),
        SExpr::Str(s) => clone_bytes(s),
        SExpr::Sym(s) => clone_bytes(s),
        SExpr::Ref(_a) => {
            match (mem.car(v), mem.cdr(v)) {
                (Ok(x), Ok(y)) => {
                    if fuel == 0 {
                        object_tag_vec()
                    } else {
                        let mut out: Vec<u8> = Vec::new();
                        out.push('(' as u8);
                        let mut rest = print_pair_exec(mem, &x, &y, fuel - 1);
                        out.append(&mut rest);
                        proof {
                            assert(out@ =~= seq!['(' as u8] + print_pair(
                                mem@,
                                x@,
                                y@,
                                (fuel - 1) as nat,
                            ));
                        }
                        out
                    }
                },
                _ => object_tag_vec(),
            }
        },
    }
}

fn print_pair_exec(mem: &Memory, x: &SExpr, y: &SExpr, fuel: u128) -> (r: Vec<u8>)
    ensures
        r@ == print_pair(mem@, x@, y@, fuel as nat),
    decreases fuel, 1nat,
{
    let mut out = print_val_exec(mem, x, fuel);
    match y {
        SExpr::Nil => {
            out.push(')' as u8);
            proof {
                assert(out@ =~= print_val(mem@, x@, fuel as nat) + seq![')' as u8]);
            }
            out
        },
        _ => {
            match (mem.car(y), mem.cdr(y)) {
                (Ok(x2), Ok(y2)) => {
                    if fuel == 0 {
                        out.push(' ' as u8);
                        let mut tag = object_tag_vec();
                        out.append(&mut tag);
                        out.push(')' as u8);
                        proof {
                            assert(out@ =~= print_val(mem@, x@, fuel as nat) + seq![' ' as u8]
                                + object_tag() + seq![')' as u8]);
                        }
                        out
                    } else {
                        out.push(' ' as u8);
                        let mut rest = print_pair_exec(mem, &x2, &y2, fuel - 1);
                        out.append(&mut rest);
                        proof {
                            assert(out@ =~= print_val(mem@, x@, fuel as nat) + seq![' ' as u8]
                                + print_pair(mem@, x2@, y2@, (fuel - 1) as nat));
                        }
                        out
                    }
                },
                _ => {
                    out.push(' ' as u8);
                    out.push('.' as u8);
                    out.push(' ' as u8);
                    let mut tail = print_val_exec(mem, y, fuel);
                    out.append(&mut tail);
                    out.push(')' as u8);
                    proof {
                        assert(out@ =~= print_val(mem@, x@, fuel as nat) + seq![
                            ' ' as u8,
                            '.' as u8,
                            ' ' as u8,
                        ] + print_val(mem@, y@, fuel as nat) + seq![')' as u8]);
                    }
                    out
                },
            }
        },
    }
}

impl Memory {
    /// The printed text of a value, as bytes.
    pub fn to_string(&self, e: &SExpr) -> (r: Vec<u8>)
        ensures
            r@ == print_val(self@, e@, (self@.cells.len() + 1) as nat),
    {
        let fuel: u128 = (self.mem.len() as u128) + 1;
        print_val_exec(self, e, fuel)
    }
}

/// Replacing the entry at `i` with one that keeps the key (up to contents)
/// turns the denoted map into an `insert` of the new value.
proof fn lemma_assoc_replace(
    before: Seq<(Vec<u8>, SExpr)>,
    after: Seq<(Vec<u8>, SExpr)>,
    i: int,
)
    requires
        0 <= i < before.len(),
        after.len() == before.len(),
        forall|j: int| 0 <= j < before.len() && j != i ==> after[j] == before[j],
        after[i].0@ == before[i].0@,
        forall|p: int, q: int|
            0 <= p < q < before.len() ==> before[p].0@ != before[q].0@,
    ensures
        assoc_view(after) == assoc_view(before).insert(after[i].0@, after[i].1@),
    decreases before.len(),
{
    if i == before.len() - 1 {
        assert(after.drop_last() =~= before.drop_last());
        assert(assoc_view(after) =~= assoc_view(before).insert(after[i].0@, after[i].1@));
    } else {
        assert(after.last() == before.last());
        lemma_assoc_replace(before.drop_last(), after.drop_last(), i);
        assert(after.drop_last()[i] == after[i]);
        assert(before[i].0@ != before.last().0@);
        assert(assoc_view(after) =~= assoc_view(before).insert(after[i].0@, after[i].1@));
    }
}

} // verus!
