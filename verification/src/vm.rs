//! The evaluator: a heap of values with object identity, chained
//! environment frames with shared ownership, special-form dispatch with
//! proper tail calls, and the built-in procedure library.
//!
//! Values in flight are handles (indices) into the heap, so `eq?` is handle
//! comparison, mutation is visible through every holder of a handle, and a
//! frame captured by a closure outlives the call that created it.

use vstd::prelude::*;
use vstd::string::*;
use crate::cell::Cell;
use crate::cell::cell_wf;
use crate::chars::chars_to_string;
use crate::chars::str_chars;
use crate::number::Number;
use crate::number::number_wf;

verus! {

broadcast use vstd::std_specs::vec::axiom_vec_index_decreases;

/// The closed error taxonomy of the evaluator.
#[derive(Debug, PartialEq, Eq)]
pub enum Error {
    ExpectedPairButFound(String),
    InvalidArgs(String, String, String),
    InvalidDefineSyntax(String),
    InvalidNumArgs(String),
    InvalidProcedure(String),
    InvalidStringIndex(usize, usize),
    InvalidSyntax(String),
    InvalidUsePrimitive(String),
    InvalidVectorIndex(usize, usize),
    UnquotedNil,
    VariableNotBound(String),
    /// Deep non-tail recursion or a computation that will not finish.
    ResourceExhausted,
}

/// A heap cell.  `Pair` and `Vect` hold handles; `Sym` holds an index into
/// the intern table; `Closure` holds its body as handles into the heap and
/// the frame it captured.
pub enum Node {
    Bool(bool),
    Ch(char),
    Num(Number),
    Sym(usize),
    Nil,
    Void,
    Pair(usize, usize),
    Vect(Vec<usize>),
    Strg(Vec<char>),
    Closure(ClosureData),
    Prim(u32),
    Free,
}

pub struct ClosureData {
    /// Symbols of the fixed parameters.
    pub params: Vec<usize>,
    /// Symbol of the rest parameter, if the lambda is variadic.
    pub rest: Option<usize>,
    /// The body expressions, in order.
    pub body: Vec<usize>,
    /// The frame captured at creation.
    pub env: usize,
}

/// One environment frame: bindings plus the enclosing frame.
pub struct Frame {
    pub parent: Option<usize>,
    pub binds: Vec<(usize, usize)>,
}

pub struct Vm {
    pub heap: Vec<Node>,
    pub frames: Vec<Frame>,
    pub syms: Vec<Option<Vec<char>>>,
    pub free: Vec<usize>,
}

/// Every handle in a node stays inside the heap, every symbol index inside
/// the intern table, every captured frame inside the frame store.
pub open spec fn node_wf(n: Node, hlen: nat, slen: nat, flen: nat) -> bool {
    match n {
        Node::Num(x) => number_wf(x),
        Node::Sym(s) => s < slen,
        Node::Pair(a, b) => a < hlen && b < hlen,
        Node::Vect(v) => forall|i: int| 0 <= i < v@.len() ==> (#[trigger] v@[i]) < hlen,
        Node::Closure(c) => {
            &&& c.env < flen
            &&& forall|i: int| 0 <= i < c.body@.len() ==> (#[trigger] c.body@[i]) < hlen
            &&& forall|i: int| 0 <= i < c.params@.len() ==> (#[trigger] c.params@[i]) < slen
            &&& (c.rest matches Some(s) ==> s < slen)
        },
        _ => true,
    }
}

/// A frame's parent comes strictly before it, so lookup chains end.
pub open spec fn frame_wf(f: Frame, me: nat, hlen: nat, slen: nat) -> bool {
    &&& (f.parent matches Some(p) ==> p < me)
    &&& forall|i: int|
        0 <= i < f.binds@.len() ==> (#[trigger] f.binds@[i]).0 < slen && f.binds@[i].1 < hlen
}

impl Vm {
    /// The representation invariant of the whole machine.
    pub open spec fn wf(&self) -> bool {
        &&& self.frames@.len() >= 1
        &&& forall|i: int|
            0 <= i < self.heap@.len() ==> node_wf(
                #[trigger] self.heap@[i],
                self.heap@.len(),
                self.syms@.len(),
                self.frames@.len(),
            )
        &&& forall|i: int|
            0 <= i < self.frames@.len() ==> frame_wf(
                #[trigger] self.frames@[i],
                i as nat,
                self.heap@.len(),
                self.syms@.len(),
            )
        &&& forall|i: int|
            0 <= i < self.free@.len() ==> (#[trigger] self.free@[i]) < self.heap@.len() && (
            self.heap@[self.free@[i] as int] is Free)
        &&& forall|i: int, j: int|
            0 <= i < j < self.free@.len() ==> (#[trigger] self.free@[i]) < (
            #[trigger] self.free@[j])
        &&& forall|i: int, j: int|
            0 <= i < j < self.syms@.len() ==> ((#[trigger] self.syms@[i]) matches Some(t1) ==> ((
            #[trigger] self.syms@[j]) matches Some(t2) ==> t1@ != t2@))
    }

    /// A machine whose reserved special-form names are interned, with
    /// `quote` at its fixed index.
    pub open spec fn ready(&self) -> bool {
        &&& self.wf()
        &&& self.syms@.len() > SYM_ELSE
        &&& (self.syms@[S_QUOTE as int] matches Some(t) && t@ == "quote"@)
    }

    /// The store only grows (handles stay valid).
    pub open spec fn extends(&self, older: Vm) -> bool {
        &&& self.heap@.len() >= older.heap@.len()
        &&& self.frames@.len() >= older.frames@.len()
        &&& self.syms@.len() >= older.syms@.len()
    }
}

/// Every interned text survives: the table only gains entries.  The
/// collector is the one operation that does not keep this, and it keeps
/// the reserved entries.
pub open spec fn syms_kept(a: Vm, b: Vm) -> bool {
    forall|j: int|
        0 <= j < a.syms@.len() && ((#[trigger] a.syms@[j]) is Some) ==> b.syms@[j] == a.syms@[j]
}

proof fn lemma_node_wf_grow(n: Node, h1: nat, s1: nat, f1: nat, h2: nat, s2: nat, f2: nat)
    requires
        node_wf(n, h1, s1, f1),
        h1 <= h2,
        s1 <= s2,
        f1 <= f2,
    ensures
        node_wf(n, h2, s2, f2),
{
}

proof fn lemma_frame_wf_grow(f: Frame, me: nat, h1: nat, s1: nat, h2: nat, s2: nat)
    requires
        frame_wf(f, me, h1, s1),
        h1 <= h2,
        s1 <= s2,
    ensures
        frame_wf(f, me, h2, s2),
{
}

impl Vm {
    /// Allocates a node, reusing a collected slot when one is free.  The
    /// returned handle is fresh: no live node refers to it, and every live
    /// node keeps its place and content.
    fn alloc_node(&mut self, n: Node) -> (h: usize)
        requires
            old(self).wf(),
            node_wf(n, old(self).heap@.len(), old(self).syms@.len(), old(self).frames@.len()),
        ensures
            final(self).wf(),
            final(self).extends(*old(self)),
            h < final(self).heap@.len(),
            final(self).heap@[h as int] == n,
            final(self).frames == old(self).frames,
            final(self).syms == old(self).syms,
            forall|i: int|
                0 <= i < old(self).heap@.len() && !((#[trigger] old(self).heap@[i]) is Free)
                    ==> final(self).heap@[i] == old(self).heap@[i],
            h >= old(self).heap@.len() || old(self).heap@[h as int] is Free,
    {
        match self.free.pop() {
            Some(slot) => {
                proof {
                    assert(old(self).free@[old(self).free@.len() - 1] == slot);
                    assert(slot < self.heap@.len());
                }
                self.heap[slot] = n;
                proof {
                    assert forall|i: int|
                        0 <= i < self.heap@.len() implies node_wf(
                        #[trigger] self.heap@[i],
                        self.heap@.len(),
                        self.syms@.len(),
                        self.frames@.len(),
                    ) by {
                        if i != slot {
                            assert(self.heap@[i] == old(self).heap@[i]);
                        }
                    }
                    assert forall|i: int|
                        0 <= i < self.free@.len() implies (#[trigger] self.free@[i])
                        < self.heap@.len() && (self.heap@[self.free@[i] as int] is Free) by {
                        assert(old(self).free@[i] == self.free@[i]);
                        assert(old(self).heap@[self.free@[i] as int] is Free);
                        // the free list is strictly increasing, so the
                        // reused (last) slot is not among the rest
                        assert(self.free@[i] < slot);
                    }
                }
                slot
            },
            None => {
                let h = self.heap.len();
                self.heap.push(n);
                proof {
                    assert forall|i: int|
                        0 <= i < self.heap@.len() implies node_wf(
                        #[trigger] self.heap@[i],
                        self.heap@.len(),
                        self.syms@.len(),
                        self.frames@.len(),
                    ) by {
                        if i < old(self).heap@.len() {
                            lemma_node_wf_grow(
                                self.heap@[i],
                                old(self).heap@.len(),
                                old(self).syms@.len(),
                                old(self).frames@.len(),
                                self.heap@.len(),
                                self.syms@.len(),
                                self.frames@.len(),
                            );
                        }
                    }
                    assert forall|i: int|
                        0 <= i < self.frames@.len() implies frame_wf(
                        #[trigger] self.frames@[i],
                        i as nat,
                        self.heap@.len(),
                        self.syms@.len(),
                    ) by {
                        lemma_frame_wf_grow(
                            self.frames@[i],
                            i as nat,
                            old(self).heap@.len(),
                            old(self).syms@.len(),
                            self.heap@.len(),
                            self.syms@.len(),
                        );
                    }
                }
                h
            },
        }
    }
}

/// The first binding of `sym` in a binding list.
pub open spec fn bind_val(binds: Seq<(usize, usize)>, sym: usize) -> Option<usize>
    decreases binds.len(),
{
    if binds.len() == 0 {
        None
    } else if binds[0].0 == sym {
        Some(binds[0].1)
    } else {
        bind_val(binds.skip(1), sym)
    }
}

impl Vm {
    /// The value bound to `sym`, looking outward from frame `env`.
    pub open spec fn lookup_spec(&self, env: int, sym: usize) -> Option<usize>
        decreases env,
    {
        if 0 <= env < self.frames@.len() {
            match bind_val(self.frames@[env].binds@, sym) {
                Some(v) => Some(v),
                None => match self.frames@[env].parent {
                    Some(p) => if p < env {
                        self.lookup_spec(p as int, sym)
                    } else {
                        None
                    },
                    None => None,
                },
            }
        } else {
            None
        }
    }
}

fn vec_char_eq(a: &Vec<char>, b: &Vec<char>) -> (r: bool)
    ensures
        r == (a@ == b@),
{
    if a.len() != b.len() {
        proof {
            assert(a@ != b@);
        }
        return false;
    }
    let mut i: usize = 0;
    while i < a.len()
        invariant
            i <= a@.len(),
            a@.len() == b@.len(),
            forall|j: int| 0 <= j < i ==> a@[j] == b@[j],
        decreases a@.len() - i,
    {
        if a[i] != b[i] {
            proof {
                assert(a@ != b@);
            }
            return false;
        }
        i = i + 1;
    }
    proof {
        assert(a@ =~= b@);
    }
    true
}

fn copy_chars(a: &Vec<char>) -> (r: Vec<char>)
    ensures
        r@ == a@,
{
    let mut out: Vec<char> = Vec::new();
    let mut i: usize = 0;
    while i < a.len()
        invariant
            i <= a@.len(),
            out@ == a@.subrange(0, i as int),
        decreases a@.len() - i,
    {
        out.push(a[i]);
        proof {
            assert(out@ =~= a@.subrange(0, i + 1));
        }
        i = i + 1;
    }
    proof {
        assert(a@.subrange(0, a@.len() as int) =~= a@);
    }
    out
}

fn copy_usizes(a: &Vec<usize>) -> (r: Vec<usize>)
    ensures
        r@ == a@,
{
    let mut out: Vec<usize> = Vec::new();
    let mut i: usize = 0;
    while i < a.len()
        invariant
            i <= a@.len(),
            out@ == a@.subrange(0, i as int),
        decreases a@.len() - i,
    {
        out.push(a[i]);
        proof {
            assert(out@ =~= a@.subrange(0, i + 1));
        }
        i = i + 1;
    }
    proof {
        assert(a@.subrange(0, a@.len() as int) =~= a@);
    }
    out
}

impl Vm {
    /// Interns symbol text: equal spellings share one entry, so symbol
    /// identity is index identity.
    pub fn intern(&mut self, text: Vec<char>) -> (s: usize)
        requires
            old(self).wf(),
        ensures
            final(self).wf(),
            final(self).extends(*old(self)),
            final(self).heap == old(self).heap,
            final(self).frames == old(self).frames,
            s < final(self).syms@.len(),
            final(self).syms@.len() <= old(self).syms@.len() + 1,
            final(self).syms@[s as int] matches Some(t) && t@ == text@,
            forall|j: int|
                0 <= j < old(self).syms@.len() && (#[trigger] old(self).syms@[j]) is Some
                    ==> final(self).syms@[j] == old(self).syms@[j],
            forall|j: int|
                0 <= j < old(self).syms@.len() ==> ((#[trigger] old(self).syms@[j]) matches Some(
                    t,
                ) ==> (t@ == text@ ==> s == j)),
    {
        let n = self.syms.len();
        let mut i: usize = 0;
        let mut hole: Option<usize> = None;
        while i < n
            invariant
                i <= n,
                self.wf(),
                *self == *old(self),
                n == self.syms@.len(),
                hole matches Some(h) ==> h < n && self.syms@[h as int] is None,
                forall|m: int|
                    0 <= m < i ==> ((#[trigger] self.syms@[m]) matches Some(t) ==> t@ != text@),
            decreases n - i,
        {
            match &self.syms[i] {
                Some(t) => {
                    if vec_char_eq(t, &text) {
                        proof {
                            assert forall|j: int|
                                0 <= j < self.syms@.len() implies ((#[trigger] self.syms@[j])
                                matches Some(t2) ==> (t2@ == text@ ==> i == j)) by {}
                        }
                        return i;
                    }
                },
                None => {
                    if matches!(hole, Option::<usize>::None) {
                        hole = Some(i);
                    }
                },
            }
            i = i + 1;
        }
        match hole {
            Some(h) => {
                self.syms[h] = Some(text);
                proof {
                    assert forall|k: int|
                        0 <= k < self.heap@.len() implies node_wf(
                        #[trigger] self.heap@[k],
                        self.heap@.len(),
                        self.syms@.len(),
                        self.frames@.len(),
                    ) by {
                        assert(self.heap@[k] == old(self).heap@[k]);
                    }
                    assert forall|i2: int, j2: int|
                        0 <= i2 < j2 < self.syms@.len() implies ((#[trigger] self.syms@[i2])
                        matches Some(t1) ==> ((#[trigger] self.syms@[j2]) matches Some(t2) ==> t1@
                        != t2@)) by {
                        if i2 != h && j2 != h {
                            assert(self.syms@[i2] == old(self).syms@[i2]);
                            assert(self.syms@[j2] == old(self).syms@[j2]);
                        }
                    }
                }
                h
            },
            None => {
                self.syms.push(Some(text));
                proof {
                    assert forall|k: int|
                        0 <= k < self.heap@.len() implies node_wf(
                        #[trigger] self.heap@[k],
                        self.heap@.len(),
                        self.syms@.len(),
                        self.frames@.len(),
                    ) by {
                        lemma_node_wf_grow(
                            self.heap@[k],
                            old(self).heap@.len(),
                            old(self).syms@.len(),
                            old(self).frames@.len(),
                            self.heap@.len(),
                            self.syms@.len(),
                            self.frames@.len(),
                        );
                    }
                    assert forall|k: int|
                        0 <= k < self.frames@.len() implies frame_wf(
                        #[trigger] self.frames@[k],
                        k as nat,
                        self.heap@.len(),
                        self.syms@.len(),
                    ) by {
                        lemma_frame_wf_grow(
                            self.frames@[k],
                            k as nat,
                            old(self).heap@.len(),
                            old(self).syms@.len(),
                            self.heap@.len(),
                            self.syms@.len(),
                        );
                    }
                    assert forall|i2: int, j2: int|
                        0 <= i2 < j2 < self.syms@.len() implies ((#[trigger] self.syms@[i2])
                        matches Some(t1) ==> ((#[trigger] self.syms@[j2]) matches Some(t2) ==> t1@
                        != t2@)) by {
                        if j2 < n {
                            assert(self.syms@[i2] == old(self).syms@[i2]);
                            assert(self.syms@[j2] == old(self).syms@[j2]);
                        } else {
                            assert(self.syms@[i2] == old(self).syms@[i2]);
                        }
                    }
                }
                n
            },
        }
    }

    /// Pushes a fresh empty frame whose parent is `parent`.
    pub fn push_frame(&mut self, parent: usize) -> (f: usize)
        requires
            old(self).wf(),
            parent < old(self).frames@.len(),
        ensures
            final(self).wf(),
            final(self).extends(*old(self)),
            final(self).heap == old(self).heap,
            final(self).syms == old(self).syms,
            f == old(self).frames@.len(),
            final(self).frames@.len() == old(self).frames@.len() + 1,
            forall|j: int|
                0 <= j < old(self).frames@.len() ==> final(self).frames@[j] == old(
                    self,
                ).frames@[j],
            final(self).frames@[f as int].parent == Some(parent),
            final(self).frames@[f as int].binds@.len() == 0,
    {
        let f = self.frames.len();
        let fr = Frame { parent: Some(parent), binds: Vec::new() };
        self.frames.push(fr);
        proof {
            assert forall|k: int|
                0 <= k < self.heap@.len() implies node_wf(
                #[trigger] self.heap@[k],
                self.heap@.len(),
                self.syms@.len(),
                self.frames@.len(),
            ) by {
                lemma_node_wf_grow(
                    self.heap@[k],
                    old(self).heap@.len(),
                    old(self).syms@.len(),
                    old(self).frames@.len(),
                    self.heap@.len(),
                    self.syms@.len(),
                    self.frames@.len(),
                );
            }
        }
        f
    }

    /// Binds `sym` to `val` in frame `env`, replacing any existing binding
    /// there.
    pub fn frame_define(&mut self, env: usize, sym: usize, val: usize)
        requires
            old(self).wf(),
            env < old(self).frames@.len(),
            sym < old(self).syms@.len(),
            val < old(self).heap@.len(),
        ensures
            final(self).wf(),
            final(self).extends(*old(self)),
            final(self).heap == old(self).heap,
            final(self).syms == old(self).syms,
            final(self).frames@.len() == old(self).frames@.len(),
            forall|j: int|
                0 <= j < old(self).frames@.len() && j != env ==> final(self).frames@[j] == old(
                    self,
                ).frames@[j],
            final(self).frames@[env as int].parent == old(self).frames@[env as int].parent,
            bind_val(final(self).frames@[env as int].binds@, sym) == Some(val),
            forall|s2: usize|
                s2 != sym ==> (#[trigger] bind_val(final(self).frames@[env as int].binds@, s2))
                    == bind_val(old(self).frames@[env as int].binds@, s2),
    {
        let n = self.frames[env].binds.len();
        let mut i: usize = 0;
        while i < n
            invariant
                i <= n,
                self.wf(),
                env < self.frames@.len(),
                sym < self.syms@.len(),
                val < self.heap@.len(),
                n == self.frames@[env as int].binds@.len(),
                *self == *old(self),
                forall|j: int| 0 <= j < i ==> (#[trigger] self.frames@[env as int].binds@[j]).0
                    != sym,
            decreases n - i,
        {
            if self.frames[env].binds[i].0 == sym {
                let b = &mut self.frames[env].binds;
                b.set(i, (sym, val));
                proof {
                    lemma_bind_val_set(old(self).frames@[env as int].binds@, i as int, sym, val);
                    assert forall|s2: usize| s2 != sym implies (#[trigger] bind_val(
                        self.frames@[env as int].binds@,
                        s2,
                    )) == bind_val(old(self).frames@[env as int].binds@, s2) by {
                        lemma_bind_val_set_others(
                            old(self).frames@[env as int].binds@,
                            i as int,
                            sym,
                            val,
                            s2,
                        );
                    }
                    assert forall|k: int|
                        0 <= k < self.frames@.len() implies frame_wf(
                        #[trigger] self.frames@[k],
                        k as nat,
                        self.heap@.len(),
                        self.syms@.len(),
                    ) by {
                        if k != env {
                            assert(self.frames@[k] == old(self).frames@[k]);
                        }
                    }
                }
                return ;
            }
            i = i + 1;
        }
        let b = &mut self.frames[env].binds;
        b.push((sym, val));
        proof {
            lemma_bind_val_push(old(self).frames@[env as int].binds@, sym, val);
            assert forall|s2: usize| s2 != sym implies (#[trigger] bind_val(
                self.frames@[env as int].binds@,
                s2,
            )) == bind_val(old(self).frames@[env as int].binds@, s2) by {
                lemma_bind_val_push_others(
                    old(self).frames@[env as int].binds@,
                    sym,
                    val,
                    s2,
                );
            }
            assert forall|k: int|
                0 <= k < self.frames@.len() implies frame_wf(
                #[trigger] self.frames@[k],
                k as nat,
                self.heap@.len(),
                self.syms@.len(),
            ) by {
                if k != env {
                    assert(self.frames@[k] == old(self).frames@[k]);
                }
            }
        }
    }
}

/// Replacing entry `i` (whose key is not earlier in the list) makes lookup
/// of `sym` find `val`.
proof fn lemma_bind_val_set(binds: Seq<(usize, usize)>, i: int, sym: usize, val: usize)
    requires
        0 <= i < binds.len(),
        binds[i].0 == sym,
        forall|j: int| 0 <= j < i ==> (#[trigger] binds[j]).0 != sym,
    ensures
        bind_val(binds.update(i, (sym, val)), sym) == Some(val),
    decreases i,
{
    if i == 0 {
        assert(binds.update(0, (sym, val))[0] == (sym, val));
    } else {
        assert(binds.update(i, (sym, val))[0] == binds[0]);
        assert(binds[0].0 != sym);
        assert(binds.update(i, (sym, val)).skip(1) =~= binds.skip(1).update(i - 1, (sym, val)));
        lemma_bind_val_set(binds.skip(1), i - 1, sym, val);
    }
}

/// Appending a binding makes lookup find it when no earlier entry has the
/// key.
proof fn lemma_bind_val_push(binds: Seq<(usize, usize)>, sym: usize, val: usize)
    requires
        forall|j: int| 0 <= j < binds.len() ==> (#[trigger] binds[j]).0 != sym,
    ensures
        bind_val(binds.push((sym, val)), sym) == Some(val),
    decreases binds.len(),
{
    if binds.len() == 0 {
        assert(binds.push((sym, val))[0] == (sym, val));
    } else {
        assert(binds.push((sym, val))[0] == binds[0]);
        assert(binds.push((sym, val)).skip(1) =~= binds.skip(1).push((sym, val)));
        lemma_bind_val_push(binds.skip(1), sym, val);
    }
}

/// Replacing the entry at `i` (whose key is `sym`) leaves every other
/// key's lookup unchanged.
proof fn lemma_bind_val_set_others(binds: Seq<(usize, usize)>, i: int, sym: usize, val: usize, s2: usize)
    requires
        0 <= i < binds.len(),
        binds[i].0 == sym,
        s2 != sym,
    ensures
        bind_val(binds.update(i, (sym, val)), s2) == bind_val(binds, s2),
    decreases i,
{
    let nb = binds.update(i, (sym, val));
    if i == 0 {
        assert(nb[0] == (sym, val));
        assert(nb.skip(1) =~= binds.skip(1));
    } else {
        assert(nb[0] == binds[0]);
        if binds[0].0 != s2 {
            assert(nb.skip(1) =~= binds.skip(1).update(i - 1, (sym, val)));
            lemma_bind_val_set_others(binds.skip(1), i - 1, sym, val, s2);
        }
    }
}

/// Appending a binding for `sym` leaves every other key's lookup
/// unchanged.
proof fn lemma_bind_val_push_others(binds: Seq<(usize, usize)>, sym: usize, val: usize, s2: usize)
    requires
        s2 != sym,
    ensures
        bind_val(binds.push((sym, val)), s2) == bind_val(binds, s2),
    decreases binds.len(),
{
    let nb = binds.push((sym, val));
    if binds.len() == 0 {
        assert(nb[0] == (sym, val));
        assert(nb.skip(1) =~= binds);
    } else {
        assert(nb[0] == binds[0]);
        if binds[0].0 != s2 {
            assert(nb.skip(1) =~= binds.skip(1).push((sym, val)));
            lemma_bind_val_push_others(binds.skip(1), sym, val, s2);
        }
    }
}

impl Vm {
    /// Looks `sym` up from frame `env` outward.
    pub fn env_lookup(&self, env: usize, sym: usize) -> (r: Option<usize>)
        requires
            self.wf(),
            env < self.frames@.len(),
        ensures
            r == self.lookup_spec(env as int, sym),
            r matches Some(v) ==> v < self.heap@.len(),
    {
        let mut cur: usize = env;
        loop
            invariant
                self.wf(),
                cur < self.frames@.len(),
                env < self.frames@.len(),
                self.lookup_spec(env as int, sym) == self.lookup_spec(cur as int, sym),
            decreases cur,
        {
            let n = self.frames[cur].binds.len();
            let mut i: usize = 0;
            while i < n
                invariant
                    i <= n,
                    self.wf(),
                    cur < self.frames@.len(),
                    env < self.frames@.len(),
                    self.lookup_spec(env as int, sym) == self.lookup_spec(cur as int, sym),
                    n == self.frames@[cur as int].binds@.len(),
                    forall|j: int|
                        0 <= j < i ==> (#[trigger] self.frames@[cur as int].binds@[j]).0 != sym,
                decreases n - i,
            {
                let b = self.frames[cur].binds[i];
                if b.0 == sym {
                    proof {
                        lemma_bind_val_found(self.frames@[cur as int].binds@, i as int, sym);
                    }
                    return Some(b.1);
                }
                i = i + 1;
            }
            proof {
                lemma_bind_val_absent(self.frames@[cur as int].binds@, sym);
            }
            match self.frames[cur].parent {
                Some(p) => {
                    cur = p;
                },
                None => {
                    return None;
                },
            }
        }
    }

    /// Rebinds `sym` to `val` where it is visible from frame `env`: the
    /// binding in the innermost frame of the chain that holds one.  Returns
    /// whether a binding was found; nothing changes when none was, and when
    /// one was, looking `sym` up from `env` afterwards yields `val` while
    /// every other binding is untouched.
    pub fn env_set(&mut self, env: usize, sym: usize, val: usize) -> (r: bool)
        requires
            old(self).wf(),
            env < old(self).frames@.len(),
            val < old(self).heap@.len(),
            sym < old(self).syms@.len(),
        ensures
            final(self).wf(),
            final(self).extends(*old(self)),
            final(self).heap == old(self).heap,
            final(self).syms == old(self).syms,
            final(self).frames@.len() == old(self).frames@.len(),
            r == (old(self).lookup_spec(env as int, sym) is Some),
            !r ==> *final(self) == *old(self),
            r ==> final(self).lookup_spec(env as int, sym) == Some(val),
            forall|j: int|
                0 <= j < old(self).frames@.len() ==> (#[trigger] final(self).frames@[j]).parent
                    == old(self).frames@[j].parent,
            forall|j: int, s2: usize|
                0 <= j < old(self).frames@.len() && s2 != sym ==> (#[trigger] bind_val(
                    final(self).frames@[j].binds@,
                    s2,
                )) == bind_val(old(self).frames@[j].binds@, s2),
            forall|j: int|
                0 <= j < old(self).frames@.len() ==> ((#[trigger] bind_val(
                    final(self).frames@[j].binds@,
                    sym,
                )) == bind_val(old(self).frames@[j].binds@, sym) || bind_val(
                    final(self).frames@[j].binds@,
                    sym,
                ) == Some(val)),
        decreases env,
    {
        let n = self.frames[env].binds.len();
        let mut i: usize = 0;
        while i < n
            invariant
                i <= n,
                self.wf(),
                *self == *old(self),
                env < self.frames@.len(),
                sym < self.syms@.len(),
                val < self.heap@.len(),
                n == self.frames@[env as int].binds@.len(),
                forall|j: int|
                    0 <= j < i ==> (#[trigger] self.frames@[env as int].binds@[j]).0 != sym,
            decreases n - i,
        {
            if self.frames[env].binds[i].0 == sym {
                proof {
                    lemma_bind_val_found(self.frames@[env as int].binds@, i as int, sym);
                }
                let b = &mut self.frames[env].binds;
                b.set(i, (sym, val));
                proof {
                    lemma_bind_val_set(old(self).frames@[env as int].binds@, i as int, sym, val);
                    assert forall|s2: usize| s2 != sym implies (#[trigger] bind_val(
                        self.frames@[env as int].binds@,
                        s2,
                    )) == bind_val(old(self).frames@[env as int].binds@, s2) by {
                        lemma_bind_val_set_others(
                            old(self).frames@[env as int].binds@,
                            i as int,
                            sym,
                            val,
                            s2,
                        );
                    }
                    assert forall|k: int|
                        0 <= k < self.frames@.len() implies frame_wf(
                        #[trigger] self.frames@[k],
                        k as nat,
                        self.heap@.len(),
                        self.syms@.len(),
                    ) by {
                        if k != env {
                            assert(self.frames@[k] == old(self).frames@[k]);
                        }
                    }
                    assert(bind_val(self.frames@[env as int].binds@, sym) == Some(val));
                    assert(self.lookup_spec(env as int, sym) == Some(val));
                }
                return true;
            }
            i = i + 1;
        }
        proof {
            lemma_bind_val_absent(self.frames@[env as int].binds@, sym);
        }
        let par = self.frames[env].parent;
        match par {
            Some(p) => {
                let ghost pre = *self;
                let r = self.env_set(p, sym, val);
                proof {
                    if r {
                        // the binding of sym in this frame was absent and is
                        // either still absent or now val; either way the
                        // lookup continues to the parent and finds val
                        assert(final(self).frames@[env as int].parent == Some(p));
                        if bind_val(self.frames@[env as int].binds@, sym) is None {
                            assert(self.lookup_spec(env as int, sym) == self.lookup_spec(
                                p as int,
                                sym,
                            ));
                        } else {
                            assert(bind_val(self.frames@[env as int].binds@, sym) == Some(val));
                        }
                    }
                }
                r
            },
            None => {
                proof {
                    assert(old(self).lookup_spec(env as int, sym) is None);
                }
                false
            },
        }
    }
}

/// When entry `i` is the first with key `sym`, lookup returns its value.
proof fn lemma_bind_val_found(binds: Seq<(usize, usize)>, i: int, sym: usize)
    requires
        0 <= i < binds.len(),
        binds[i].0 == sym,
        forall|j: int| 0 <= j < i ==> (#[trigger] binds[j]).0 != sym,
    ensures
        bind_val(binds, sym) == Some(binds[i].1),
    decreases i,
{
    if i == 0 {
    } else {
        lemma_bind_val_found(binds.skip(1), i - 1, sym);
    }
}

/// When no entry has key `sym`, lookup returns nothing.
proof fn lemma_bind_val_absent(binds: Seq<(usize, usize)>, sym: usize)
    requires
        forall|j: int| 0 <= j < binds.len() ==> (#[trigger] binds[j]).0 != sym,
    ensures
        bind_val(binds, sym) is None,
    decreases binds.len(),
{
    if binds.len() > 0 {
        lemma_bind_val_absent(binds.skip(1), sym);
    }
}

/// The height of a datum tree: one for a leaf, one more than the tallest
/// child otherwise.
pub open spec fn cell_height(c: Cell) -> nat
    decreases c, 1int,
{
    match c {
        Cell::Cons(a, d) => 1 + (if cell_height(*a) >= cell_height(*d) {
            cell_height(*a)
        } else {
            cell_height(*d)
        }),
        Cell::Vector(v) => 1 + vec_max_height(v, 0),
        _ => 1,
    }
}

/// The tallest element among `v[i..]`.
pub open spec fn vec_max_height(v: Vec<Cell>, i: int) -> nat
    decreases v, v@.len() - i, 0int,
    via vec_max_height_dec
{
    if i < 0 || i >= v@.len() {
        0
    } else if cell_height(v@[i]) >= vec_max_height(v, i + 1) {
        cell_height(v@[i])
    } else {
        vec_max_height(v, i + 1)
    }
}

#[via_fn]
proof fn vec_max_height_dec(v: Vec<Cell>, i: int) {
    if 0 <= i < v@.len() {
        vstd::std_specs::vec::axiom_vec_index_decreases::<Cell>(v, i);
    }
}

/// The number of nodes of a datum tree.
pub open spec fn cell_size(c: Cell) -> nat
    decreases c, 1int,
{
    match c {
        Cell::Cons(a, d) => 1 + cell_size(*a) + cell_size(*d),
        Cell::Vector(v) => 1 + vec_sum_size(v, 0),
        _ => 1,
    }
}

/// The total size of the elements `v[i..]`.
pub open spec fn vec_sum_size(v: Vec<Cell>, i: int) -> nat
    decreases v, v@.len() - i, 0int,
    via vec_sum_size_dec
{
    if i < 0 || i >= v@.len() {
        0
    } else {
        cell_size(v@[i]) + vec_sum_size(v, i + 1)
    }
}

#[via_fn]
proof fn vec_sum_size_dec(v: Vec<Cell>, i: int) {
    if 0 <= i < v@.len() {
        vstd::std_specs::vec::axiom_vec_index_decreases::<Cell>(v, i);
    }
}

/// Every vector element stays within the vector's height and size.
pub proof fn lemma_vec_bounds(v: Vec<Cell>, i: int, j: int)
    requires
        0 <= i <= j < v@.len(),
    ensures
        cell_height(v@[j]) <= vec_max_height(v, i),
        cell_size(v@[j]) <= vec_sum_size(v, i),
    decreases j - i,
{
    if i < j {
        lemma_vec_bounds(v, i + 1, j);
    }
}

/// The datum reached from `c` by `k` cdr steps; meaningful only while
/// each step starts from a pair.
pub open spec fn nth_cdr(c: Cell, k: nat) -> Cell
    decreases k,
{
    if k == 0 {
        c
    } else {
        nth_cdr(*c->Cons_1, (k - 1) as nat)
    }
}

/// One further cdr step peels the tail of the position reached so far.
pub proof fn lemma_nth_cdr_snoc(c: Cell, k: nat)
    ensures
        nth_cdr(c, k + 1) == *nth_cdr(c, k)->Cons_1,
    decreases k,
{
    if k == 0 {
        assert(nth_cdr(c, 1) == nth_cdr(*c->Cons_1, 0));
    } else {
        lemma_nth_cdr_snoc(*c->Cons_1, (k - 1) as nat);
        assert(nth_cdr(c, k + 1) == nth_cdr(*c->Cons_1, k));
        assert(nth_cdr(c, k) == nth_cdr(*c->Cons_1, (k - 1) as nat));
    }
}

/// Every datum occupies at least one node and has positive height.
pub proof fn lemma_cell_pos(c: Cell)
    ensures
        cell_size(c) >= 1,
        cell_height(c) >= 1,
{
    match c {
        Cell::Cons(_, _) => {},
        Cell::Vector(_) => {},
        _ => {},
    }
}

/// A leaf datum: everything but pairs, vectors and procedure values.
pub open spec fn cell_atom(c: Cell) -> bool {
    match c {
        Cell::Cons(_, _) => false,
        Cell::Vector(_) => false,
        Cell::Procedure(_) => false,
        _ => true,
    }
}

/// The tree that a heap handle stands for: atoms by value, symbols by
/// their interned text, strings by contents, pairs and vectors
/// recursively, procedure values by their printable face.  A handle on a
/// cycle represents no tree.
pub open spec fn represents(vm: &Vm, h: usize, c: Cell) -> bool
    decreases c,
{
    &&& h < vm.heap@.len()
    &&& match c {
        Cell::Boolean(b) => vm.heap@[h as int] == Node::Bool(b),
        Cell::Char(x) => vm.heap@[h as int] == Node::Ch(x),
        Cell::Number(n) => vm.heap@[h as int] == Node::Num(n),
        Cell::Nil => vm.heap@[h as int] is Nil,
        Cell::Void => vm.heap@[h as int] is Void,
        Cell::Symbol(s) => (vm.heap@[h as int] matches Node::Sym(sid) && sid < vm.syms@.len() && (
        vm.syms@[sid as int] matches Some(t) && t@ == s@)),
        Cell::Str(v) => (vm.heap@[h as int] matches Node::Strg(w) && w@ == v@),
        Cell::Vector(items) => (vm.heap@[h as int] matches Node::Vect(hs) && hs@.len()
            == items@.len() && (forall|i: int|
            0 <= i < items@.len() ==> represents(vm, hs@[i], #[trigger] items@[i]))),
        Cell::Cons(a, d) => (vm.heap@[h as int] matches Node::Pair(x, y) && represents(vm, x, *a)
            && represents(vm, y, *d)),
        Cell::Procedure(name) => ((vm.heap@[h as int] is Closure && name@ == "#<lambda>"@) || (
        vm.heap@[h as int] is Prim && name@ == "#<procedure>"@)),
    }
}

/// Representation survives growth: a machine that keeps every live node
/// and every interned text still represents the same trees.
pub proof fn lemma_represents_grow(a: Vm, b: Vm, h: usize, c: Cell)
    requires
        represents(&a, h, c),
        b.heap@.len() >= a.heap@.len(),
        b.syms@.len() >= a.syms@.len(),
        forall|i: int|
            0 <= i < a.heap@.len() && !((#[trigger] a.heap@[i]) is Free) ==> b.heap@[i]
                == a.heap@[i],
        forall|j: int|
            0 <= j < a.syms@.len() && (#[trigger] a.syms@[j]) is Some ==> b.syms@[j]
                == a.syms@[j],
    ensures
        represents(&b, h, c),
    decreases c,
{
    match c {
        Cell::Vector(items) => {
            assert(!(a.heap@[h as int] is Free));
            assert forall|i: int| 0 <= i < items@.len() implies represents(
                &b,
                a.heap@[h as int]->Vect_0@[i],
                #[trigger] items@[i],
            ) by {
                lemma_represents_grow(a, b, a.heap@[h as int]->Vect_0@[i], items@[i]);
            }
        },
        Cell::Cons(x, y) => {
            assert(!(a.heap@[h as int] is Free));
            lemma_represents_grow(a, b, a.heap@[h as int]->Pair_0, *x);
            lemma_represents_grow(a, b, a.heap@[h as int]->Pair_1, *y);
        },
        _ => {
            assert(!(a.heap@[h as int] is Free));
        },
    }
}

/// A handle stands for at most one datum, up to structural equality.
pub proof fn lemma_represents_functional(vm: &Vm, h: usize, c1: Cell, c2: Cell)
    requires
        represents(vm, h, c1),
        represents(vm, h, c2),
        crate::cell::cell_is_data(c1),
    ensures
        crate::cell::cell_eq_spec(c1, c2),
    decreases c1,
{
    match (c1, c2) {
        (Cell::Vector(x), Cell::Vector(y)) => {
            let hs = vm.heap@[h as int]->Vect_0;
            assert forall|i: int| 0 <= i < x@.len() implies crate::cell::cell_eq_spec(
                #[trigger] x@[i],
                y@[i],
            ) by {
                assert(represents(vm, hs@[i], x@[i]));
                assert(represents(vm, hs@[i], y@[i]));
                lemma_represents_functional(vm, hs@[i], x@[i], y@[i]);
            }
        },
        (Cell::Cons(a1, d1), Cell::Cons(a2, d2)) => {
            lemma_represents_functional(vm, vm.heap@[h as int]->Pair_0, *a1, *a2);
            lemma_represents_functional(vm, vm.heap@[h as int]->Pair_1, *d1, *d2);
        },
        _ => {},
    }
}

/// Marking is transitively closed at `x`: whatever the node at `x` makes
/// a represented tree refer to is itself marked.
pub open spec fn marked_children(vm: &Vm, hm: Seq<bool>, sm: Seq<bool>, x: int) -> bool {
    match vm.heap@[x] {
        Node::Sym(s) => s < sm.len() && sm[s as int],
        Node::Pair(a, d) => a < hm.len() && d < hm.len() && hm[a as int] && hm[d as int],
        Node::Vect(v) => forall|e: int|
            0 <= e < v@.len() ==> (#[trigger] v@[e]) < hm.len() && hm[v@[e] as int],
        _ => true,
    }
}

/// A represented tree whose root is marked under a transitively closed
/// marking is still represented after a sweep that keeps every marked
/// node and every marked symbol.
pub proof fn lemma_represents_marked(
    a: Vm,
    b: Vm,
    hm: Seq<bool>,
    sm: Seq<bool>,
    h: usize,
    c: Cell,
)
    requires
        represents(&a, h, c),
        hm.len() == a.heap@.len(),
        sm.len() == a.syms@.len(),
        b.heap@.len() == a.heap@.len(),
        b.syms@.len() == a.syms@.len(),
        hm[h as int],
        forall|x: int| 0 <= x < a.heap@.len() && hm[x] ==> marked_children(&a, hm, sm, x),
        forall|x: int| 0 <= x < a.heap@.len() && hm[x] ==> b.heap@[x] == a.heap@[x],
        forall|s: int| 0 <= s < a.syms@.len() && sm[s] ==> b.syms@[s] == a.syms@[s],
    ensures
        represents(&b, h, c),
    decreases c,
{
    assert(marked_children(&a, hm, sm, h as int));
    match c {
        Cell::Vector(items) => {
            let hs = a.heap@[h as int]->Vect_0;
            assert forall|i: int| 0 <= i < items@.len() implies represents(
                &b,
                hs@[i],
                #[trigger] items@[i],
            ) by {
                lemma_represents_marked(a, b, hm, sm, hs@[i], items@[i]);
            }
        },
        Cell::Cons(x, y) => {
            lemma_represents_marked(a, b, hm, sm, a.heap@[h as int]->Pair_0, *x);
            lemma_represents_marked(a, b, hm, sm, a.heap@[h as int]->Pair_1, *y);
        },
        _ => {},
    }
}

/// Growing the marking keeps transitive closure at any node.
proof fn lemma_marked_children_mono(
    vm: &Vm,
    hm1: Seq<bool>,
    sm1: Seq<bool>,
    hm2: Seq<bool>,
    sm2: Seq<bool>,
    x: int,
)
    requires
        0 <= x < vm.heap@.len(),
        marked_children(vm, hm1, sm1, x),
        hm2.len() == hm1.len(),
        sm2.len() == sm1.len(),
        forall|i: int| 0 <= i < hm1.len() && hm1[i] ==> hm2[i],
        forall|i: int| 0 <= i < sm1.len() && sm1[i] ==> sm2[i],
    ensures
        marked_children(vm, hm2, sm2, x),
{
    match vm.heap@[x] {
        Node::Vect(v) => {
            assert forall|e: int| 0 <= e < v@.len() implies (#[trigger] v@[e]) < hm2.len()
                && hm2[v@[e] as int] by {
                assert(v@[e] < hm1.len() && hm1[v@[e] as int]);
            }
        },
        _ => {},
    }
}

/// Membership survives a push.
proof fn lemma_contains_push(s: Seq<usize>, v: usize, x: usize)
    requires
        s.contains(x),
    ensures
        s.push(v).contains(x),
{
    let k = choose|k: int| 0 <= k < s.len() && s[k] == x;
    assert(s.push(v)[k] == x);
}

/// Membership other than the last element survives dropping it.
proof fn lemma_contains_drop(s: Seq<usize>, x: usize)
    requires
        s.contains(x),
        s.len() > 0,
        x != s[s.len() - 1],
    ensures
        s.drop_last().contains(x),
{
    let k = choose|k: int| 0 <= k < s.len() && s[k] == x;
    assert(s.drop_last()[k] == x);
}

/// The elements of a chain of heap pairs: node `spine[k]` holds car
/// `cars[k]` and continues at `spine[k + 1]`, the last continuing at
/// `tail`.
pub open spec fn spine_links(vm: &Vm, spine: Seq<usize>, cars: Seq<usize>, tail: usize) -> bool {
    &&& spine.len() == cars.len()
    &&& forall|k: int|
        0 <= k < spine.len() ==> (#[trigger] vm.heap@[spine[k] as int]) == Node::Pair(
            cars[k],
            if k + 1 < spine.len() {
                spine[k + 1]
            } else {
                tail
            },
        ) && spine[k] < vm.heap@.len()
}

/// The tree assembled from a run of elements and a tail.
pub open spec fn assemble_spec(items: Seq<Cell>, t: Cell) -> Cell
    decreases items.len(),
{
    if items.len() == 0 {
        t
    } else {
        Cell::Cons(Box::new(items[0]), Box::new(assemble_spec(items.skip(1), t)))
    }
}

/// A linked chain whose cars and tail represent their trees represents
/// the assembled tree.
proof fn lemma_assemble_represents(
    vm: &Vm,
    spine: Seq<usize>,
    cars: Seq<usize>,
    items: Seq<Cell>,
    tail: usize,
    tcell: Cell,
)
    requires
        spine_links(vm, spine, cars, tail),
        cars.len() == items.len(),
        forall|k: int| 0 <= k < items.len() ==> represents(vm, cars[k], #[trigger] items[k]),
        represents(vm, tail, tcell),
        spine.len() > 0,
    ensures
        represents(vm, spine[0], assemble_spec(items, tcell)),
    decreases spine.len(),
{
    if spine.len() == 1 {
        assert(vm.heap@[spine[0] as int] == Node::Pair(cars[0], tail));
        assert(represents(vm, cars[0], items[0]));
        assert(items.skip(1) =~= Seq::<Cell>::empty());
    } else {
        assert(spine_links(vm, spine.skip(1), cars.skip(1), tail)) by {
            assert forall|k: int|
                0 <= k < spine.skip(1).len() implies (#[trigger] vm.heap@[spine.skip(1)[k] as int])
                == Node::Pair(
                cars.skip(1)[k],
                if k + 1 < spine.skip(1).len() {
                    spine.skip(1)[k + 1]
                } else {
                    tail
                },
            ) && spine.skip(1)[k] < vm.heap@.len() by {
                assert(spine.skip(1)[k] == spine[k + 1]);
                assert(cars.skip(1)[k] == cars[k + 1]);
                if k + 1 < spine.skip(1).len() {
                    assert(spine.skip(1)[k + 1] == spine[k + 2]);
                }
            }
        };
        assert forall|k: int|
            0 <= k < items.skip(1).len() implies represents(
            vm,
            cars.skip(1)[k],
            #[trigger] items.skip(1)[k],
        ) by {
            assert(items.skip(1)[k] == items[k + 1]);
            assert(cars.skip(1)[k] == cars[k + 1]);
        }
        lemma_assemble_represents(vm, spine.skip(1), cars.skip(1), items.skip(1), tail, tcell);
        assert(vm.heap@[spine[0] as int] == Node::Pair(cars[0], spine[1]));
        assert(assemble_spec(items, tcell) == Cell::Cons(
            Box::new(items[0]),
            Box::new(assemble_spec(items.skip(1), tcell)),
        ));
    }
}

/// A `(quote ...)` form in the heap: a pair whose operator node is the
/// reserved quote symbol and whose argument list starts with the datum.
pub open spec fn is_quote_form(vm: &Vm, h: usize) -> bool {
    &&& h < vm.heap@.len()
    &&& (vm.heap@[h as int] matches Node::Pair(op, args) && op < vm.heap@.len() && args
        < vm.heap@.len() && vm.heap@[op as int] == Node::Sym(S_QUOTE) && (
    vm.heap@[args as int] is Pair))
}

/// The quoted datum's handle in a quote form.
pub open spec fn quote_datum(vm: &Vm, h: usize) -> usize {
    vm.heap@[vm.heap@[h as int]->Pair_1 as int]->Pair_0
}

/// A `(quote <datum> ...)` form as a tree.
pub open spec fn is_cell_quote(c: Cell) -> bool {
    &&& c matches Cell::Cons(op, rest) && ((*op) matches Cell::Symbol(s) && s@ == "quote"@) && ((
    *rest) is Cons)
}

/// The quoted datum of a quote form, as a tree.
pub open spec fn cell_quote_datum(c: Cell) -> Cell {
    *((*c->Cons_1)->Cons_0)
}

/// Shallow identity: atoms by value, symbols by intern index, pairs by
/// their two handles, strings, vectors and procedures by handle.
pub open spec fn eq_spec(vm: &Vm, a: usize, b: usize) -> bool {
    if a == b {
        true
    } else {
        match (vm.heap@[a as int], vm.heap@[b as int]) {
            (Node::Bool(x), Node::Bool(y)) => x == y,
            (Node::Ch(x), Node::Ch(y)) => x == y,
            (Node::Num(x), Node::Num(y)) => x == y,
            (Node::Sym(x), Node::Sym(y)) => x == y,
            (Node::Nil, Node::Nil) => true,
            (Node::Void, Node::Void) => true,
            (Node::Pair(a1, d1), Node::Pair(a2, d2)) => a1 == a2 && d1 == d2,
            _ => false,
        }
    }
}

/// `eq?` is reflexive by identity: a handle is always `eq?` to itself,
/// whatever it holds.  Two separately allocated pairs are `eq?` only when
/// they hold the same two handles, so structurally equal but separately
/// built lists are not `eq?`.
pub proof fn lemma_eq_identity(vm: &Vm, a: usize, b: usize)
    requires
        a < vm.heap@.len(),
        b < vm.heap@.len(),
    ensures
        eq_spec(vm, a, a),
        (vm.heap@[a as int] matches Node::Pair(a1, d1) && vm.heap@[b as int] matches Node::Pair(
            a2,
            d2,
        ) && a != b && a1 != a2) ==> !eq_spec(vm, a, b),
{
}

impl Vm {
    /// `eq?`: identity, as the stored node shows it.
    pub fn eq_h(&self, a: usize, b: usize) -> (r: bool)
        requires
            self.wf(),
            a < self.heap@.len(),
            b < self.heap@.len(),
        ensures
            r == eq_spec(self, a, b),
            a == b ==> r,
    {
        if a == b {
            return true;
        }
        match (&self.heap[a], &self.heap[b]) {
            (Node::Bool(x), Node::Bool(y)) => x == y,
            (Node::Ch(x), Node::Ch(y)) => x == y,
            (Node::Num(x), Node::Num(y)) => crate::number::num_eq(x, y),
            (Node::Sym(x), Node::Sym(y)) => x == y,
            (Node::Nil, Node::Nil) => true,
            (Node::Void, Node::Void) => true,
            (Node::Pair(a1, d1), Node::Pair(a2, d2)) => a1 == a2 && d1 == d2,
            _ => false,
        }
    }

    /// The pair's two handles, when `h` is a pair.
    fn get_pair(&self, h: usize) -> (r: Option<(usize, usize)>)
        requires
            self.wf(),
            h < self.heap@.len(),
        ensures
            match r {
                Some(p) => self.heap@[h as int] == Node::Pair(p.0, p.1) && p.0
                    < self.heap@.len() && p.1 < self.heap@.len(),
                None => !(self.heap@[h as int] is Pair),
            },
    {
        match &self.heap[h] {
            Node::Pair(a, d) => Some((*a, *d)),
            _ => None,
        }
    }

    fn get_sym(&self, h: usize) -> (r: Option<usize>)
        requires
            self.wf(),
            h < self.heap@.len(),
        ensures
            match r {
                Some(s) => self.heap@[h as int] == Node::Sym(s) && s < self.syms@.len(),
                None => !(self.heap@[h as int] is Sym),
            },
    {
        match &self.heap[h] {
            Node::Sym(s) => Some(*s),
            _ => None,
        }
    }

    fn get_num(&self, h: usize) -> (r: Option<Number>)
        requires
            self.wf(),
            h < self.heap@.len(),
        ensures
            match r {
                Some(n) => self.heap@[h as int] == Node::Num(n) && number_wf(n),
                None => !(self.heap@[h as int] is Num),
            },
    {
        match &self.heap[h] {
            Node::Num(n) => Some(*n),
            _ => None,
        }
    }

    /// Everything but `#f` counts as true.
    fn truthy(&self, h: usize) -> (r: bool)
        requires
            self.wf(),
            h < self.heap@.len(),
        ensures
            r == !(self.heap@[h as int] == Node::Bool(false)),
    {
        match &self.heap[h] {
            Node::Bool(b) => *b,
            _ => true,
        }
    }

    /// The interned text of symbol `s`.
    fn sym_text(&self, s: usize) -> (r: Vec<char>)
        requires
            self.wf(),
            s < self.syms@.len(),
    {
        match &self.syms[s] {
            Some(t) => copy_chars(t),
            None => Vec::new(),
        }
    }

    /// Copies a `Cell` tree into the heap, giving each datum a fresh node.
    pub fn intern_cell(&mut self, c: &Cell) -> (h: usize)
        requires
            old(self).wf(),
            cell_wf(*c),
        ensures
            final(self).wf(),
            final(self).extends(*old(self)),
            final(self).frames == old(self).frames,
            h < final(self).heap@.len(),
            forall|i: int|
                0 <= i < old(self).heap@.len() && !((#[trigger] old(self).heap@[i]) is Free)
                    ==> final(self).heap@[i] == old(self).heap@[i],
            forall|j: int|
                0 <= j < old(self).syms@.len() && (#[trigger] old(self).syms@[j]) is Some
                    ==> final(self).syms@[j] == old(self).syms@[j],
            crate::cell::cell_is_data(*c) ==> represents(final(self), h, *c),
            (*c) matches Cell::Number(n) ==> final(self).heap@[h as int] == Node::Num(n),
            (*c) matches Cell::Boolean(b) ==> final(self).heap@[h as int] == Node::Bool(b),
            (*c) matches Cell::Char(x) ==> final(self).heap@[h as int] == Node::Ch(x),
            (*c is Nil) ==> final(self).heap@[h as int] is Nil,
            (*c is Void) ==> final(self).heap@[h as int] is Void,
        decreases *c,
    {
        match c {
            Cell::Boolean(b) => self.alloc_node(Node::Bool(*b)),
            Cell::Char(x) => self.alloc_node(Node::Ch(*x)),
            Cell::Number(n) => self.alloc_node(Node::Num(*n)),
            Cell::Nil => self.alloc_node(Node::Nil),
            Cell::Void => self.alloc_node(Node::Void),
            Cell::Procedure(_) => self.alloc_node(Node::Void),
            Cell::Symbol(t) => {
                let chars = str_chars(t.as_str());
                let s = self.intern(chars);
                self.alloc_node(Node::Sym(s))
            },
            Cell::Str(t) => {
                let chars = copy_chars(t);
                self.alloc_node(Node::Strg(chars))
            },
            Cell::Vector(v) => {
                let mut hs: Vec<usize> = Vec::new();
                let mut i: usize = 0;
                while i < v.len()
                    invariant
                        i <= v@.len(),
                        self.wf(),
                        self.extends(*old(self)),
                        syms_kept(*old(self), *self),
                        self.frames == old(self).frames,
                        cell_wf(*c),
                        *c is Vector,
                        c->Vector_0 == *v,
                        hs@.len() == i,
                        forall|k: int|
                            0 <= k < old(self).heap@.len() && !((#[trigger] old(
                                self,
                            ).heap@[k]) is Free) ==> self.heap@[k] == old(self).heap@[k],
                        forall|j: int|
                            0 <= j < old(self).syms@.len() && (#[trigger] old(
                                self,
                            ).syms@[j]) is Some ==> self.syms@[j] == old(self).syms@[j],
                        forall|k: int|
                            0 <= k < hs@.len() ==> (#[trigger] hs@[k]) < self.heap@.len(),
                        forall|k: int|
                            0 <= k < hs@.len() && crate::cell::cell_is_data(v@[k]) ==> represents(
                                self,
                                #[trigger] hs@[k],
                                v@[k],
                            ),
                    decreases v@.len() - i,
                {
                    proof {
                        vstd::std_specs::vec::axiom_vec_index_decreases::<Cell>(*v, i as int);
                    }
                    let ghost pre = *self;
                    let eh = self.intern_cell(&v[i]);
                    proof {
                        assert forall|k: int|
                            0 <= k < hs@.len() implies (#[trigger] hs@[k]) < self.heap@.len() by {
                            assert(hs@[k] < pre.heap@.len());
                        }
                        assert forall|k: int|
                            0 <= k < hs@.len() && crate::cell::cell_is_data(v@[k]) implies
                            represents(self, #[trigger] hs@[k], v@[k]) by {
                            lemma_represents_grow(pre, *self, hs@[k], v@[k]);
                        }
                    }
                    hs.push(eh);
                    i = i + 1;
                }
                let ghost pre2 = *self;
                let r = self.alloc_node(Node::Vect(hs));
                proof {
                    if crate::cell::cell_is_data(*c) {
                        assert forall|k: int|
                            0 <= k < v@.len() implies represents(
                            self,
                            self.heap@[r as int]->Vect_0@[k],
                            #[trigger] v@[k],
                        ) by {
                            assert(crate::cell::cell_is_data(v@[k]));
                            lemma_represents_grow(pre2, *self, hs@[k], v@[k]);
                        }
                    }
                }
                r
            },
            Cell::Cons(a, d) => {
                let ha = self.intern_cell(&**a);
                let ghost mid = *self;
                let hd = self.intern_cell(&**d);
                proof {
                    assert(ha < mid.heap@.len());
                    if crate::cell::cell_is_data(*c) {
                        lemma_represents_grow(mid, *self, ha, **a);
                    }
                }
                let ghost pre2 = *self;
                let r = self.alloc_node(Node::Pair(ha, hd));
                proof {
                    if crate::cell::cell_is_data(*c) {
                        lemma_represents_grow(pre2, *self, ha, **a);
                        lemma_represents_grow(pre2, *self, hd, **d);
                    }
                }
                r
            },
        }
    }
}

// Special-form symbols are interned first, in this order, so a symbol
// index below `N_SPECIAL` names a special form.
pub const S_QUOTE: usize = 0;
pub const S_IF: usize = 1;
pub const S_DEFINE: usize = 2;
pub const S_SET: usize = 3;
pub const S_LAMBDA: usize = 4;
pub const S_LET: usize = 5;
pub const S_LETSTAR: usize = 6;
pub const S_BEGIN: usize = 7;
pub const S_AND: usize = 8;
pub const S_OR: usize = 9;
pub const S_UNLESS: usize = 10;
pub const S_COND: usize = 11;
pub const N_SPECIAL: usize = 12;
pub const SYM_ELSE: usize = 12;

pub const P_CAR: u32 = 0;
pub const P_CDR: u32 = 1;
pub const P_CONS: u32 = 2;
pub const P_EQ: u32 = 3;
pub const P_EQV: u32 = 4;
pub const P_EQUAL: u32 = 5;
pub const P_NOT: u32 = 6;
pub const P_ADD: u32 = 7;
pub const P_SUB: u32 = 8;
pub const P_MUL: u32 = 9;
pub const P_DIV: u32 = 10;
pub const P_QUOTIENT: u32 = 11;
pub const P_REMAINDER: u32 = 12;
pub const P_MODULO: u32 = 13;
pub const P_ABS: u32 = 14;
pub const P_NUM_EQ: u32 = 15;
pub const P_LT: u32 = 16;
pub const P_GT: u32 = 17;
pub const P_LE: u32 = 18;
pub const P_GE: u32 = 19;
pub const P_ZERO: u32 = 20;
pub const P_POSITIVE: u32 = 21;
pub const P_NEGATIVE: u32 = 22;
pub const P_ODD: u32 = 23;
pub const P_EVEN: u32 = 24;
pub const P_IS_NUMBER: u32 = 25;
pub const P_IS_BOOLEAN: u32 = 26;
pub const P_IS_SYMBOL: u32 = 27;
pub const P_IS_STRING: u32 = 28;
pub const P_IS_CHAR: u32 = 29;
pub const P_IS_NULL: u32 = 30;
pub const P_IS_PROCEDURE: u32 = 31;
pub const P_IS_PAIR: u32 = 32;
pub const P_IS_LIST: u32 = 33;
pub const P_IS_VECTOR: u32 = 34;
pub const P_INT_TO_CHAR: u32 = 35;
pub const P_CHAR_TO_INT: u32 = 36;
pub const P_CH_ALPHA: u32 = 37;
pub const P_CH_NUMERIC: u32 = 38;
pub const P_CH_SPACE: u32 = 39;
pub const P_CH_UPPER: u32 = 40;
pub const P_CH_LOWER: u32 = 41;
pub const P_CH_EQ: u32 = 42;
pub const P_CH_LT: u32 = 43;
pub const P_CH_GT: u32 = 44;
pub const P_CH_LE: u32 = 45;
pub const P_CH_GE: u32 = 46;
pub const P_CHCI_EQ: u32 = 47;
pub const P_CHCI_LT: u32 = 48;
pub const P_CHCI_GT: u32 = 49;
pub const P_CHCI_LE: u32 = 50;
pub const P_CHCI_GE: u32 = 51;
pub const P_CH_UPCASE: u32 = 52;
pub const P_CH_DOWNCASE: u32 = 53;
pub const P_CH_FOLDCASE: u32 = 54;
pub const P_DIGIT_VALUE: u32 = 55;
pub const P_MAKE_STRING: u32 = 56;
pub const P_STRING: u32 = 57;
pub const P_STR_LEN: u32 = 58;
pub const P_STR_REF: u32 = 59;
pub const P_STR_SET: u32 = 60;
pub const P_STR_APPEND: u32 = 61;
pub const P_STR_EQ: u32 = 62;
pub const P_STR_LT: u32 = 63;
pub const P_STR_GT: u32 = 64;
pub const P_STR_LE: u32 = 65;
pub const P_STR_GE: u32 = 66;
pub const P_STRCI_EQ: u32 = 67;
pub const P_STRCI_LT: u32 = 68;
pub const P_STRCI_GT: u32 = 69;
pub const P_STRCI_LE: u32 = 70;
pub const P_STRCI_GE: u32 = 71;
pub const P_STR_UPCASE: u32 = 72;
pub const P_STR_DOWNCASE: u32 = 73;
pub const P_STR_FOLDCASE: u32 = 74;
pub const P_SUBSTRING: u32 = 75;
pub const P_STR_COPY: u32 = 76;
pub const P_STR_TO_LIST: u32 = 77;
pub const P_LIST_TO_STR: u32 = 78;
pub const P_STR_FILL: u32 = 79;
pub const P_STR_TO_SYM: u32 = 80;
pub const P_SYM_TO_STR: u32 = 81;
pub const P_SYM_EQ: u32 = 82;
pub const P_VECTOR: u32 = 83;
pub const P_MAKE_VECTOR: u32 = 84;
pub const P_VEC_LEN: u32 = 85;
pub const P_VEC_REF: u32 = 86;
pub const P_VEC_SET: u32 = 87;
pub const P_VEC_FILL: u32 = 88;
pub const P_VEC_TO_LIST: u32 = 89;
pub const P_LIST_TO_VEC: u32 = 90;
pub const P_APPEND: u32 = 91;
pub const P_REVERSE: u32 = 92;
pub const P_LIST_TAIL: u32 = 93;
pub const P_LIST_REF: u32 = 94;
pub const P_ASSOC: u32 = 95;
pub const P_ASSQ: u32 = 96;
pub const P_ASSV: u32 = 97;
pub const P_SET_CAR: u32 = 98;
pub const P_SET_CDR: u32 = 99;
pub const P_TO_INEXACT: u32 = 100;
pub const P_TO_EXACT: u32 = 101;

/// The printable name of a primitive.
fn prim_name(code: u32) -> (r: String) {
    let s: &str = match code {
        P_CAR => "car",
        P_CDR => "cdr",
        P_CONS => "cons",
        P_EQ => "eq?",
        P_EQV => "eqv?",
        P_EQUAL => "equal?",
        P_NOT => "not",
        P_ADD => "+",
        P_SUB => "-",
        P_MUL => "*",
        P_DIV => "/",
        P_QUOTIENT => "quotient",
        P_REMAINDER => "remainder",
        P_MODULO => "modulo",
        P_ABS => "abs",
        P_NUM_EQ => "=",
        P_LT => "<",
        P_GT => ">",
        P_LE => "<=",
        P_GE => ">=",
        P_ZERO => "zero?",
        P_POSITIVE => "positive?",
        P_NEGATIVE => "negative?",
        P_ODD => "odd?",
        P_EVEN => "even?",
        P_IS_NUMBER => "number?",
        P_IS_BOOLEAN => "boolean?",
        P_IS_SYMBOL => "symbol?",
        P_IS_STRING => "string?",
        P_IS_CHAR => "char?",
        P_IS_NULL => "null?",
        P_IS_PROCEDURE => "procedure?",
        P_IS_PAIR => "pair?",
        P_IS_LIST => "list?",
        P_IS_VECTOR => "vector?",
        P_INT_TO_CHAR => "integer->char",
        P_CHAR_TO_INT => "char->integer",
        P_CH_ALPHA => "char-alphabetic?",
        P_CH_NUMERIC => "char-numeric?",
        P_CH_SPACE => "char-whitespace?",
        P_CH_UPPER => "char-upper-case?",
        P_CH_LOWER => "char-lower-case?",
        P_CH_EQ => "char=?",
        P_CH_LT => "char<?",
        P_CH_GT => "char>?",
        P_CH_LE => "char<=?",
        P_CH_GE => "char>=?",
        P_CHCI_EQ => "char-ci=?",
        P_CHCI_LT => "char-ci<?",
        P_CHCI_GT => "char-ci>?",
        P_CHCI_LE => "char-ci<=?",
        P_CHCI_GE => "char-ci>=?",
        P_CH_UPCASE => "char-upcase",
        P_CH_DOWNCASE => "char-downcase",
        P_CH_FOLDCASE => "char-foldcase",
        P_DIGIT_VALUE => "digit-value",
        P_MAKE_STRING => "make-string",
        P_STRING => "string",
        P_STR_LEN => "string-length",
        P_STR_REF => "string-ref",
        P_STR_SET => "string-set!",
        P_STR_APPEND => "string-append",
        P_STR_EQ => "string=?",
        P_STR_LT => "string<?",
        P_STR_GT => "string>?",
        P_STR_LE => "string<=?",
        P_STR_GE => "string>=?",
        P_STRCI_EQ => "string-ci=?",
        P_STRCI_LT => "string-ci<?",
        P_STRCI_GT => "string-ci>?",
        P_STRCI_LE => "string-ci<=?",
        P_STRCI_GE => "string-ci>=?",
        P_STR_UPCASE => "string-upcase",
        P_STR_DOWNCASE => "string-downcase",
        P_STR_FOLDCASE => "string-foldcase",
        P_SUBSTRING => "substring",
        P_STR_COPY => "string-copy",
        P_STR_TO_LIST => "string->list",
        P_LIST_TO_STR => "list->string",
        P_STR_FILL => "string-fill!",
        P_STR_TO_SYM => "string->symbol",
        P_SYM_TO_STR => "symbol->string",
        P_SYM_EQ => "symbol=?",
        P_VECTOR => "vector",
        P_MAKE_VECTOR => "make-vector",
        P_VEC_LEN => "vector-length",
        P_VEC_REF => "vector-ref",
        P_VEC_SET => "vector-set!",
        P_VEC_FILL => "vector-fill!",
        P_VEC_TO_LIST => "vector->list",
        P_LIST_TO_VEC => "list->vector",
        P_APPEND => "append",
        P_REVERSE => "reverse",
        P_LIST_TAIL => "list-tail",
        P_LIST_REF => "list-ref",
        P_ASSOC => "assoc",
        P_ASSQ => "assq",
        P_ASSV => "assv",
        P_SET_CAR => "set-car!",
        P_SET_CDR => "set-cdr!",
        P_TO_INEXACT => "exact->inexact",
        P_TO_EXACT => "inexact->exact",
        _ => "#<primitive>",
    };
    String::from_str(s)
}

/// The printable name of a special form.
fn special_name(sym: usize) -> (r: String) {
    let s: &str = if sym == S_QUOTE {
        "quote"
    } else if sym == S_IF {
        "if"
    } else if sym == S_DEFINE {
        "define"
    } else if sym == S_SET {
        "set!"
    } else if sym == S_LAMBDA {
        "lambda"
    } else if sym == S_LET {
        "let"
    } else if sym == S_LETSTAR {
        "let*"
    } else if sym == S_BEGIN {
        "begin"
    } else if sym == S_AND {
        "and"
    } else if sym == S_OR {
        "or"
    } else if sym == S_UNLESS {
        "unless"
    } else {
        "cond"
    };
    String::from_str(s)
}

/// Builds a (possibly improper) list tree from items and a tail.
fn assemble_list(items: Vec<Cell>, tail: Cell) -> (r: Cell)
    requires
        cell_wf(tail),
        forall|i: int| 0 <= i < items@.len() ==> cell_wf(#[trigger] items@[i]),
    ensures
        cell_wf(r),
        r == assemble_spec(items@, tail),
{
    let ghost orig = items@;
    let mut v = items;
    let mut r = tail;
    proof {
        assert(orig.skip(orig.len() as int) =~= Seq::<Cell>::empty());
    }
    while v.len() > 0
        invariant
            cell_wf(r),
            v@.len() <= orig.len(),
            v@ == orig.subrange(0, v@.len() as int),
            r == assemble_spec(orig.skip(v@.len() as int), tail),
            forall|i: int| 0 <= i < v@.len() ==> cell_wf(#[trigger] v@[i]),
        decreases v.len(),
    {
        let ghost i = v@.len() as int;
        let last = v.pop().unwrap();
        proof {
            assert(last == orig[i - 1]);
            assert(v@ =~= orig.subrange(0, i - 1));
            assert(orig.skip(i - 1)[0] == orig[i - 1]);
            assert(orig.skip(i - 1).skip(1) =~= orig.skip(i));
        }
        r = Cell::Cons(Box::new(last), Box::new(r));
    }
    proof {
        assert(orig.skip(0) =~= orig);
    }
    r
}

pub const EXTRACT_DEPTH: u64 = 400;
pub const SPINE_BUDGET: u64 = 0xFFFF_FFFF;

impl Vm {
    /// Reads the tree rooted at `h` back out of the heap.  Fails only when
    /// the structure nests deeper than the budget allows (for example a
    /// cycle built with `set-cdr!`).
    pub fn extract(&self, h: usize, depth: u64) -> (r: Result<Cell, Error>)
        requires
            self.wf(),
            h < self.heap@.len(),
        ensures
            r matches Ok(c) ==> cell_wf(c) && represents(self, h, c),
            forall|c: Cell|
                #[trigger] represents(self, h, c) && cell_atom(c) && depth > 0 ==> r is Ok,
            forall|c: Cell|
                #[trigger] represents(self, h, c) && cell_height(c) <= depth && cell_size(c)
                    < SPINE_BUDGET ==> r is Ok,
            depth > 0 ==> ((self.heap@[h as int] matches Node::Num(n) ==> r == Ok::<Cell, Error>(
                Cell::Number(n),
            )) && (self.heap@[h as int] matches Node::Bool(b) ==> r == Ok::<Cell, Error>(
                Cell::Boolean(b),
            )) && (self.heap@[h as int] matches Node::Ch(c) ==> r == Ok::<Cell, Error>(
                Cell::Char(c),
            )) && ((self.heap@[h as int] is Nil) ==> r == Ok::<Cell, Error>(Cell::Nil)) && ((
            self.heap@[h as int] is Void) ==> r == Ok::<Cell, Error>(Cell::Void))),
        decreases depth,
    {
        if depth == 0 {
            proof {
                assert forall|c: Cell|
                    #[trigger] represents(self, h, c) && cell_height(c) <= depth && cell_size(c)
                        < SPINE_BUDGET implies false by {
                    lemma_cell_pos(c);
                }
            }
            return Err(Error::ResourceExhausted);
        }
        match &self.heap[h] {
            Node::Bool(b) => Ok(Cell::Boolean(*b)),
            Node::Ch(c) => Ok(Cell::Char(*c)),
            Node::Num(n) => Ok(Cell::Number(*n)),
            Node::Nil => Ok(Cell::Nil),
            Node::Void => Ok(Cell::Void),
            Node::Free => {
                proof {
                    assert forall|c: Cell|
                        #[trigger] represents(self, h, c) && cell_height(c) <= depth
                            && cell_size(c) < SPINE_BUDGET implies false by {}
                }
                Err(Error::ResourceExhausted)
            },
            Node::Sym(s) => {
                match &self.syms[*s] {
                    Some(t) => {
                        let tc = copy_chars(t);
                        Ok(Cell::Symbol(chars_to_string(&tc)))
                    },
                    None => {
                        proof {
                            assert forall|c: Cell|
                                #[trigger] represents(self, h, c) && cell_height(c) <= depth
                                    && cell_size(c) < SPINE_BUDGET implies false by {}
                        }
                        Err(Error::ResourceExhausted)
                    },
                }
            },
            Node::Strg(t) => Ok(Cell::Str(copy_chars(t))),
            Node::Prim(_) => Ok(Cell::Procedure(String::from_str("#<procedure>"))),
            Node::Closure(_) => Ok(Cell::Procedure(String::from_str("#<lambda>"))),
            Node::Vect(v) => {
                let hs = copy_usizes(v);
                let mut items: Vec<Cell> = Vec::new();
                let mut i: usize = 0;
                while i < hs.len()
                    invariant
                        i <= hs@.len(),
                        self.wf(),
                        h < self.heap@.len(),
                        self.heap@[h as int] is Vect,
                        hs@ == self.heap@[h as int]->Vect_0@,
                        items@.len() == i,
                        forall|k: int| 0 <= k < hs@.len() ==> (#[trigger] hs@[k])
                            < self.heap@.len(),
                        forall|k: int| 0 <= k < items@.len() ==> cell_wf(#[trigger] items@[k]),
                        forall|k: int|
                            0 <= k < items@.len() ==> represents(self, hs@[k], #[trigger] items@[k]),
                        depth >= 1,
                    decreases hs@.len() - i,
                {
                    match self.extract(hs[i], depth - 1) {
                        Ok(c) => {
                            items.push(c);
                        },
                        Err(e) => {
                            proof {
                                assert forall|c: Cell|
                                    #[trigger] represents(self, h, c) && cell_height(c) <= depth
                                        && cell_size(c) < SPINE_BUDGET implies false by {
                                    let elems = c->Vector_0;
                                    lemma_vec_bounds(elems, 0, i as int);
                                    assert(represents(self, hs@[i as int], elems@[i as int]));
                                }
                            }
                            return Err(e);
                        },
                    }
                    i = i + 1;
                }
                Ok(Cell::Vector(items))
            },
            Node::Pair(a0, d0) => {
                let mut items: Vec<Cell> = Vec::new();
                let ghost mut spine: Seq<usize> = seq![h];
                let ghost mut cars: Seq<usize> = seq![*a0];
                let mut cur: usize = *d0;
                match self.extract(*a0, depth - 1) {
                    Ok(c) => {
                        items.push(c);
                    },
                    Err(e) => {
                        proof {
                            assert forall|c: Cell|
                                #[trigger] represents(self, h, c) && cell_height(c) <= depth
                                    && cell_size(c) < SPINE_BUDGET implies false by {
                                let a = *c->Cons_0;
                                let d = *c->Cons_1;
                                lemma_cell_pos(d);
                                assert(represents(self, *a0, a));
                            }
                        }
                        return Err(e);
                    },
                }
                let mut budget: u64 = SPINE_BUDGET;
                proof {
                    assert forall|c: Cell|
                        #[trigger] represents(self, h, c) && cell_height(c) <= depth
                            && cell_size(c) < SPINE_BUDGET implies (represents(
                        self,
                        cur,
                        nth_cdr(c, spine.len()),
                    ) && cell_height(nth_cdr(c, spine.len())) + spine.len() <= cell_height(c)
                        && cell_size(nth_cdr(c, spine.len())) + 2 * spine.len() <= cell_size(
                        c,
                    )) by {
                        let d = *c->Cons_1;
                        lemma_cell_pos(*c->Cons_0);
                        assert(nth_cdr(c, 1) == nth_cdr(d, 0));
                        assert(nth_cdr(d, 0) == d);
                        assert(represents(self, *d0, d));
                    }
                }
                loop
                    invariant
                        self.wf(),
                        h < self.heap@.len(),
                        self.heap@[h as int] is Pair,
                        cur < self.heap@.len(),
                        spine.len() == items@.len(),
                        cars.len() == items@.len(),
                        spine.len() >= 1,
                        spine[0] == h,
                        spine_links(self, spine, cars, cur),
                        forall|k: int|
                            0 <= k < items@.len() ==> represents(self, cars[k], #[trigger] items@[k]),
                        forall|k: int| 0 <= k < items@.len() ==> cell_wf(#[trigger] items@[k]),
                        depth >= 1,
                        spine.len() + budget == SPINE_BUDGET + 1,
                        forall|c: Cell|
                            #[trigger] represents(self, h, c) && cell_height(c) <= depth
                                && cell_size(c) < SPINE_BUDGET ==> (represents(
                            self,
                            cur,
                            nth_cdr(c, spine.len()),
                        ) && cell_height(nth_cdr(c, spine.len())) + spine.len() <= cell_height(c)
                            && cell_size(nth_cdr(c, spine.len())) + 2 * spine.len() <= cell_size(
                            c,
                        )),
                    decreases budget,
                {
                    if budget == 0 {
                        proof {
                            assert forall|c: Cell|
                                #[trigger] represents(self, h, c) && cell_height(c) <= depth
                                    && cell_size(c) < SPINE_BUDGET implies false by {
                                lemma_cell_pos(nth_cdr(c, spine.len()));
                            }
                        }
                        return Err(Error::ResourceExhausted);
                    }
                    budget = budget - 1;
                    match self.get_pair(cur) {
                        Some((a, d)) => {
                            match self.extract(a, depth - 1) {
                                Ok(c) => {
                                    proof {
                                        let l0 = spine.len();
                                        spine = spine.push(cur);
                                        cars = cars.push(a);
                                        assert forall|c2: Cell|
                                            #[trigger] represents(self, h, c2) && cell_height(c2)
                                                <= depth && cell_size(c2)
                                                < SPINE_BUDGET implies (represents(
                                            self,
                                            d,
                                            nth_cdr(c2, l0 + 1),
                                        ) && cell_height(nth_cdr(c2, l0 + 1)) + l0 + 1
                                            <= cell_height(c2) && cell_size(nth_cdr(c2, l0 + 1)) + 2
                                            * (l0 + 1) <= cell_size(c2)) by {
                                            let t = nth_cdr(c2, l0);
                                            let ta = *t->Cons_0;
                                            let td = *t->Cons_1;
                                            lemma_nth_cdr_snoc(c2, l0);
                                            lemma_cell_pos(ta);
                                            assert(represents(self, d, td));
                                        }
                                    }
                                    items.push(c);
                                },
                                Err(e) => {
                                    proof {
                                        assert forall|c: Cell|
                                            #[trigger] represents(self, h, c) && cell_height(c)
                                                <= depth && cell_size(c)
                                                < SPINE_BUDGET implies false by {
                                            let t = nth_cdr(c, spine.len());
                                            let ta = *t->Cons_0;
                                            let td = *t->Cons_1;
                                            lemma_cell_pos(td);
                                            assert(represents(self, a, ta));
                                        }
                                    }
                                    return Err(e);
                                },
                            }
                            cur = d;
                        },
                        None => {
                            match self.extract(cur, depth - 1) {
                                Ok(tail) => {
                                    proof {
                                        lemma_assemble_represents(
                                            self,
                                            spine,
                                            cars,
                                            items@,
                                            cur,
                                            tail,
                                        );
                                    }
                                    return Ok(assemble_list(items, tail));
                                },
                                Err(e) => {
                                    proof {
                                        assert forall|c: Cell|
                                            #[trigger] represents(self, h, c) && cell_height(c)
                                                <= depth && cell_size(c)
                                                < SPINE_BUDGET implies false by {
                                            let t = nth_cdr(c, spine.len());
                                            assert(represents(self, cur, t));
                                        }
                                    }
                                    return Err(e);
                                },
                            }
                        },
                    }
                }
            },
        }
    }

    /// The printed form of the value at `h`, for error messages.
    fn describe(&self, h: usize) -> (r: String)
        requires
            self.wf(),
            h < self.heap@.len(),
    {
        match self.extract(h, 64) {
            Ok(c) => crate::print::cell_to_string(&c),
            Err(_) => String::from_str("..."),
        }
    }

    /// Interns a name and binds a primitive to it in the global frame.
    fn def_prim(&mut self, name: &str, code: u32)
        requires
            old(self).wf(),
        ensures
            final(self).wf(),
            final(self).extends(*old(self)),
            syms_kept(*old(self), *final(self)),
            old(self).ready() ==> final(self).ready(),
    {
        let t = str_chars(name);
        let s = self.intern(t);
        let p = self.alloc_node(Node::Prim(code));
        self.frame_define(0, s, p);
    }

    /// A machine with the global frame, the special-form names interned in
    /// their reserved order, and every primitive bound globally.
    #[verifier::rlimit(100)]
    pub fn new() -> (r: Vm)
        ensures
            r.ready(),
    {
        let mut syms: Vec<Option<Vec<char>>> = Vec::new();
        syms.push(Some(str_chars("quote")));
        syms.push(Some(str_chars("if")));
        syms.push(Some(str_chars("define")));
        syms.push(Some(str_chars("set!")));
        syms.push(Some(str_chars("lambda")));
        syms.push(Some(str_chars("let")));
        syms.push(Some(str_chars("let*")));
        syms.push(Some(str_chars("begin")));
        syms.push(Some(str_chars("and")));
        syms.push(Some(str_chars("or")));
        syms.push(Some(str_chars("unless")));
        syms.push(Some(str_chars("cond")));
        syms.push(Some(str_chars("else")));
        let mut frames: Vec<Frame> = Vec::new();
        frames.push(Frame { parent: None, binds: Vec::new() });
        let mut vm = Vm { heap: Vec::new(), frames, syms, free: Vec::new() };
        proof {
            reveal_strlit("quote");
            reveal_strlit("if");
            reveal_strlit("define");
            reveal_strlit("set!");
            reveal_strlit("lambda");
            reveal_strlit("let");
            reveal_strlit("let*");
            reveal_strlit("begin");
            reveal_strlit("and");
            reveal_strlit("or");
            reveal_strlit("unless");
            reveal_strlit("cond");
            reveal_strlit("else");
            assert("if"@[0] != "or"@[0]);
            assert("if"@ != "or"@);
            assert("let"@[0] != "and"@[0]);
            assert("let"@ != "and"@);
            assert("set!"@[0] != "let*"@[0]);
            assert("set!"@ != "let*"@);
            assert("set!"@[0] != "cond"@[0]);
            assert("set!"@ != "cond"@);
            assert("set!"@[0] != "else"@[0]);
            assert("set!"@ != "else"@);
            assert("let*"@[0] != "cond"@[0]);
            assert("let*"@ != "cond"@);
            assert("let*"@[0] != "else"@[0]);
            assert("let*"@ != "else"@);
            assert("cond"@[0] != "else"@[0]);
            assert("cond"@ != "else"@);
            assert("quote"@[0] != "begin"@[0]);
            assert("quote"@ != "begin"@);
            assert("define"@[0] != "lambda"@[0]);
            assert("define"@ != "lambda"@);
            assert("define"@[0] != "unless"@[0]);
            assert("define"@ != "unless"@);
            assert("lambda"@[0] != "unless"@[0]);
            assert("lambda"@ != "unless"@);
            assert(vm.syms@.len() == 13);
            assert forall|i: int, j: int|
                0 <= i < j < vm.syms@.len() implies ((#[trigger] vm.syms@[i]) matches Some(t1)
                ==> ((#[trigger] vm.syms@[j]) matches Some(t2) ==> t1@ != t2@)) by {
                if i == 0 {
                    if j == 1 {
                        assert((vm.syms@[0]->Some_0)@ == "quote"@);
                        assert((vm.syms@[1]->Some_0)@ == "if"@);
                    }
                    if j == 2 {
                        assert((vm.syms@[0]->Some_0)@ == "quote"@);
                        assert((vm.syms@[2]->Some_0)@ == "define"@);
                    }
                    if j == 3 {
                        assert((vm.syms@[0]->Some_0)@ == "quote"@);
                        assert((vm.syms@[3]->Some_0)@ == "set!"@);
                    }
                    if j == 4 {
                        assert((vm.syms@[0]->Some_0)@ == "quote"@);
                        assert((vm.syms@[4]->Some_0)@ == "lambda"@);
                    }
                    if j == 5 {
                        assert((vm.syms@[0]->Some_0)@ == "quote"@);
                        assert((vm.syms@[5]->Some_0)@ == "let"@);
                    }
                    if j == 6 {
                        assert((vm.syms@[0]->Some_0)@ == "quote"@);
                        assert((vm.syms@[6]->Some_0)@ == "let*"@);
                    }
                    if j == 7 {
                        assert((vm.syms@[0]->Some_0)@ == "quote"@);
                        assert((vm.syms@[7]->Some_0)@ == "begin"@);
                    }
                    if j == 8 {
                        assert((vm.syms@[0]->Some_0)@ == "quote"@);
                        assert((vm.syms@[8]->Some_0)@ == "and"@);
                    }
                    if j == 9 {
                        assert((vm.syms@[0]->Some_0)@ == "quote"@);
                        assert((vm.syms@[9]->Some_0)@ == "or"@);
                    }
                    if j == 10 {
                        assert((vm.syms@[0]->Some_0)@ == "quote"@);
                        assert((vm.syms@[10]->Some_0)@ == "unless"@);
                    }
                    if j == 11 {
                        assert((vm.syms@[0]->Some_0)@ == "quote"@);
                        assert((vm.syms@[11]->Some_0)@ == "cond"@);
                    }
                    if j == 12 {
                        assert((vm.syms@[0]->Some_0)@ == "quote"@);
                        assert((vm.syms@[12]->Some_0)@ == "else"@);
                    }
                }
                if i == 1 {
                    if j == 2 {
                        assert((vm.syms@[1]->Some_0)@ == "if"@);
                        assert((vm.syms@[2]->Some_0)@ == "define"@);
                    }
                    if j == 3 {
                        assert((vm.syms@[1]->Some_0)@ == "if"@);
                        assert((vm.syms@[3]->Some_0)@ == "set!"@);
                    }
                    if j == 4 {
                        assert((vm.syms@[1]->Some_0)@ == "if"@);
                        assert((vm.syms@[4]->Some_0)@ == "lambda"@);
                    }
                    if j == 5 {
                        assert((vm.syms@[1]->Some_0)@ == "if"@);
                        assert((vm.syms@[5]->Some_0)@ == "let"@);
                    }
                    if j == 6 {
                        assert((vm.syms@[1]->Some_0)@ == "if"@);
                        assert((vm.syms@[6]->Some_0)@ == "let*"@);
                    }
                    if j == 7 {
                        assert((vm.syms@[1]->Some_0)@ == "if"@);
                        assert((vm.syms@[7]->Some_0)@ == "begin"@);
                    }
                    if j == 8 {
                        assert((vm.syms@[1]->Some_0)@ == "if"@);
                        assert((vm.syms@[8]->Some_0)@ == "and"@);
                    }
                    if j == 9 {
                        assert((vm.syms@[1]->Some_0)@ == "if"@);
                        assert((vm.syms@[9]->Some_0)@ == "or"@);
                    }
                    if j == 10 {
                        assert((vm.syms@[1]->Some_0)@ == "if"@);
                        assert((vm.syms@[10]->Some_0)@ == "unless"@);
                    }
                    if j == 11 {
                        assert((vm.syms@[1]->Some_0)@ == "if"@);
                        assert((vm.syms@[11]->Some_0)@ == "cond"@);
                    }
                    if j == 12 {
                        assert((vm.syms@[1]->Some_0)@ == "if"@);
                        assert((vm.syms@[12]->Some_0)@ == "else"@);
                    }
                }
                if i == 2 {
                    if j == 3 {
                        assert((vm.syms@[2]->Some_0)@ == "define"@);
                        assert((vm.syms@[3]->Some_0)@ == "set!"@);
                    }
                    if j == 4 {
                        assert((vm.syms@[2]->Some_0)@ == "define"@);
                        assert((vm.syms@[4]->Some_0)@ == "lambda"@);
                    }
                    if j == 5 {
                        assert((vm.syms@[2]->Some_0)@ == "define"@);
                        assert((vm.syms@[5]->Some_0)@ == "let"@);
                    }
                    if j == 6 {
                        assert((vm.syms@[2]->Some_0)@ == "define"@);
                        assert((vm.syms@[6]->Some_0)@ == "let*"@);
                    }
                    if j == 7 {
                        assert((vm.syms@[2]->Some_0)@ == "define"@);
                        assert((vm.syms@[7]->Some_0)@ == "begin"@);
                    }
                    if j == 8 {
                        assert((vm.syms@[2]->Some_0)@ == "define"@);
                        assert((vm.syms@[8]->Some_0)@ == "and"@);
                    }
                    if j == 9 {
                        assert((vm.syms@[2]->Some_0)@ == "define"@);
                        assert((vm.syms@[9]->Some_0)@ == "or"@);
                    }
                    if j == 10 {
                        assert((vm.syms@[2]->Some_0)@ == "define"@);
                        assert((vm.syms@[10]->Some_0)@ == "unless"@);
                    }
                    if j == 11 {
                        assert((vm.syms@[2]->Some_0)@ == "define"@);
                        assert((vm.syms@[11]->Some_0)@ == "cond"@);
                    }
                    if j == 12 {
                        assert((vm.syms@[2]->Some_0)@ == "define"@);
                        assert((vm.syms@[12]->Some_0)@ == "else"@);
                    }
                }
                if i == 3 {
                    if j == 4 {
                        assert((vm.syms@[3]->Some_0)@ == "set!"@);
                        assert((vm.syms@[4]->Some_0)@ == "lambda"@);
                    }
                    if j == 5 {
                        assert((vm.syms@[3]->Some_0)@ == "set!"@);
                        assert((vm.syms@[5]->Some_0)@ == "let"@);
                    }
                    if j == 6 {
                        assert((vm.syms@[3]->Some_0)@ == "set!"@);
                        assert((vm.syms@[6]->Some_0)@ == "let*"@);
                    }
                    if j == 7 {
                        assert((vm.syms@[3]->Some_0)@ == "set!"@);
                        assert((vm.syms@[7]->Some_0)@ == "begin"@);
                    }
                    if j == 8 {
                        assert((vm.syms@[3]->Some_0)@ == "set!"@);
                        assert((vm.syms@[8]->Some_0)@ == "and"@);
                    }
                    if j == 9 {
                        assert((vm.syms@[3]->Some_0)@ == "set!"@);
                        assert((vm.syms@[9]->Some_0)@ == "or"@);
                    }
                    if j == 10 {
                        assert((vm.syms@[3]->Some_0)@ == "set!"@);
                        assert((vm.syms@[10]->Some_0)@ == "unless"@);
                    }
                    if j == 11 {
                        assert((vm.syms@[3]->Some_0)@ == "set!"@);
                        assert((vm.syms@[11]->Some_0)@ == "cond"@);
                    }
                    if j == 12 {
                        assert((vm.syms@[3]->Some_0)@ == "set!"@);
                        assert((vm.syms@[12]->Some_0)@ == "else"@);
                    }
                }
                if i == 4 {
                    if j == 5 {
                        assert((vm.syms@[4]->Some_0)@ == "lambda"@);
                        assert((vm.syms@[5]->Some_0)@ == "let"@);
                    }
                    if j == 6 {
                        assert((vm.syms@[4]->Some_0)@ == "lambda"@);
                        assert((vm.syms@[6]->Some_0)@ == "let*"@);
                    }
                    if j == 7 {
                        assert((vm.syms@[4]->Some_0)@ == "lambda"@);
                        assert((vm.syms@[7]->Some_0)@ == "begin"@);
                    }
                    if j == 8 {
                        assert((vm.syms@[4]->Some_0)@ == "lambda"@);
                        assert((vm.syms@[8]->Some_0)@ == "and"@);
                    }
                    if j == 9 {
                        assert((vm.syms@[4]->Some_0)@ == "lambda"@);
                        assert((vm.syms@[9]->Some_0)@ == "or"@);
                    }
                    if j == 10 {
                        assert((vm.syms@[4]->Some_0)@ == "lambda"@);
                        assert((vm.syms@[10]->Some_0)@ == "unless"@);
                    }
                    if j == 11 {
                        assert((vm.syms@[4]->Some_0)@ == "lambda"@);
                        assert((vm.syms@[11]->Some_0)@ == "cond"@);
                    }
                    if j == 12 {
                        assert((vm.syms@[4]->Some_0)@ == "lambda"@);
                        assert((vm.syms@[12]->Some_0)@ == "else"@);
                    }
                }
                if i == 5 {
                    if j == 6 {
                        assert((vm.syms@[5]->Some_0)@ == "let"@);
                        assert((vm.syms@[6]->Some_0)@ == "let*"@);
                    }
                    if j == 7 {
                        assert((vm.syms@[5]->Some_0)@ == "let"@);
                        assert((vm.syms@[7]->Some_0)@ == "begin"@);
                    }
                    if j == 8 {
                        assert((vm.syms@[5]->Some_0)@ == "let"@);
                        assert((vm.syms@[8]->Some_0)@ == "and"@);
                    }
                    if j == 9 {
                        assert((vm.syms@[5]->Some_0)@ == "let"@);
                        assert((vm.syms@[9]->Some_0)@ == "or"@);
                    }
                    if j == 10 {
                        assert((vm.syms@[5]->Some_0)@ == "let"@);
                        assert((vm.syms@[10]->Some_0)@ == "unless"@);
                    }
                    if j == 11 {
                        assert((vm.syms@[5]->Some_0)@ == "let"@);
                        assert((vm.syms@[11]->Some_0)@ == "cond"@);
                    }
                    if j == 12 {
                        assert((vm.syms@[5]->Some_0)@ == "let"@);
                        assert((vm.syms@[12]->Some_0)@ == "else"@);
                    }
                }
                if i == 6 {
                    if j == 7 {
                        assert((vm.syms@[6]->Some_0)@ == "let*"@);
                        assert((vm.syms@[7]->Some_0)@ == "begin"@);
                    }
                    if j == 8 {
                        assert((vm.syms@[6]->Some_0)@ == "let*"@);
                        assert((vm.syms@[8]->Some_0)@ == "and"@);
                    }
                    if j == 9 {
                        assert((vm.syms@[6]->Some_0)@ == "let*"@);
                        assert((vm.syms@[9]->Some_0)@ == "or"@);
                    }
                    if j == 10 {
                        assert((vm.syms@[6]->Some_0)@ == "let*"@);
                        assert((vm.syms@[10]->Some_0)@ == "unless"@);
                    }
                    if j == 11 {
                        assert((vm.syms@[6]->Some_0)@ == "let*"@);
                        assert((vm.syms@[11]->Some_0)@ == "cond"@);
                    }
                    if j == 12 {
                        assert((vm.syms@[6]->Some_0)@ == "let*"@);
                        assert((vm.syms@[12]->Some_0)@ == "else"@);
                    }
                }
                if i == 7 {
                    if j == 8 {
                        assert((vm.syms@[7]->Some_0)@ == "begin"@);
                        assert((vm.syms@[8]->Some_0)@ == "and"@);
                    }
                    if j == 9 {
                        assert((vm.syms@[7]->Some_0)@ == "begin"@);
                        assert((vm.syms@[9]->Some_0)@ == "or"@);
                    }
                    if j == 10 {
                        assert((vm.syms@[7]->Some_0)@ == "begin"@);
                        assert((vm.syms@[10]->Some_0)@ == "unless"@);
                    }
                    if j == 11 {
                        assert((vm.syms@[7]->Some_0)@ == "begin"@);
                        assert((vm.syms@[11]->Some_0)@ == "cond"@);
                    }
                    if j == 12 {
                        assert((vm.syms@[7]->Some_0)@ == "begin"@);
                        assert((vm.syms@[12]->Some_0)@ == "else"@);
                    }
                }
                if i == 8 {
                    if j == 9 {
                        assert((vm.syms@[8]->Some_0)@ == "and"@);
                        assert((vm.syms@[9]->Some_0)@ == "or"@);
                    }
                    if j == 10 {
                        assert((vm.syms@[8]->Some_0)@ == "and"@);
                        assert((vm.syms@[10]->Some_0)@ == "unless"@);
                    }
                    if j == 11 {
                        assert((vm.syms@[8]->Some_0)@ == "and"@);
                        assert((vm.syms@[11]->Some_0)@ == "cond"@);
                    }
                    if j == 12 {
                        assert((vm.syms@[8]->Some_0)@ == "and"@);
                        assert((vm.syms@[12]->Some_0)@ == "else"@);
                    }
                }
                if i == 9 {
                    if j == 10 {
                        assert((vm.syms@[9]->Some_0)@ == "or"@);
                        assert((vm.syms@[10]->Some_0)@ == "unless"@);
                    }
                    if j == 11 {
                        assert((vm.syms@[9]->Some_0)@ == "or"@);
                        assert((vm.syms@[11]->Some_0)@ == "cond"@);
                    }
                    if j == 12 {
                        assert((vm.syms@[9]->Some_0)@ == "or"@);
                        assert((vm.syms@[12]->Some_0)@ == "else"@);
                    }
                }
                if i == 10 {
                    if j == 11 {
                        assert((vm.syms@[10]->Some_0)@ == "unless"@);
                        assert((vm.syms@[11]->Some_0)@ == "cond"@);
                    }
                    if j == 12 {
                        assert((vm.syms@[10]->Some_0)@ == "unless"@);
                        assert((vm.syms@[12]->Some_0)@ == "else"@);
                    }
                }
                if i == 11 {
                    if j == 12 {
                        assert((vm.syms@[11]->Some_0)@ == "cond"@);
                        assert((vm.syms@[12]->Some_0)@ == "else"@);
                    }
                }
                if i == 12 {
                    assert(true);
                }
            }
            assert(vm.wf());
            assert(vm.ready());
        }
        vm.def_prim("car", P_CAR);
        vm.def_prim("cdr", P_CDR);
        vm.def_prim("cons", P_CONS);
        vm.def_prim("eq?", P_EQ);
        vm.def_prim("eqv?", P_EQV);
        vm.def_prim("equal?", P_EQUAL);
        vm.def_prim("not", P_NOT);
        vm.def_prim("+", P_ADD);
        vm.def_prim("-", P_SUB);
        vm.def_prim("*", P_MUL);
        vm.def_prim("/", P_DIV);
        vm.def_prim("quotient", P_QUOTIENT);
        vm.def_prim("remainder", P_REMAINDER);
        vm.def_prim("modulo", P_MODULO);
        vm.def_prim("abs", P_ABS);
        vm.def_prim("=", P_NUM_EQ);
        vm.def_prim("<", P_LT);
        vm.def_prim(">", P_GT);
        vm.def_prim("<=", P_LE);
        vm.def_prim(">=", P_GE);
        vm.def_prim("zero?", P_ZERO);
        vm.def_prim("positive?", P_POSITIVE);
        vm.def_prim("negative?", P_NEGATIVE);
        vm.def_prim("odd?", P_ODD);
        vm.def_prim("even?", P_EVEN);
        vm.def_prim("number?", P_IS_NUMBER);
        vm.def_prim("boolean?", P_IS_BOOLEAN);
        vm.def_prim("symbol?", P_IS_SYMBOL);
        vm.def_prim("string?", P_IS_STRING);
        vm.def_prim("char?", P_IS_CHAR);
        vm.def_prim("null?", P_IS_NULL);
        vm.def_prim("procedure?", P_IS_PROCEDURE);
        vm.def_prim("pair?", P_IS_PAIR);
        vm.def_prim("list?", P_IS_LIST);
        vm.def_prim("vector?", P_IS_VECTOR);
        vm.def_prim("integer->char", P_INT_TO_CHAR);
        vm.def_prim("char->integer", P_CHAR_TO_INT);
        vm.def_prim("char-alphabetic?", P_CH_ALPHA);
        vm.def_prim("char-numeric?", P_CH_NUMERIC);
        vm.def_prim("char-whitespace?", P_CH_SPACE);
        vm.def_prim("char-upper-case?", P_CH_UPPER);
        vm.def_prim("char-lower-case?", P_CH_LOWER);
        vm.def_prim("char=?", P_CH_EQ);
        vm.def_prim("char<?", P_CH_LT);
        vm.def_prim("char>?", P_CH_GT);
        vm.def_prim("char<=?", P_CH_LE);
        vm.def_prim("char>=?", P_CH_GE);
        vm.def_prim("char-ci=?", P_CHCI_EQ);
        vm.def_prim("char-ci<?", P_CHCI_LT);
        vm.def_prim("char-ci>?", P_CHCI_GT);
        vm.def_prim("char-ci<=?", P_CHCI_LE);
        vm.def_prim("char-ci>=?", P_CHCI_GE);
        vm.def_prim("char-upcase", P_CH_UPCASE);
        vm.def_prim("char-downcase", P_CH_DOWNCASE);
        vm.def_prim("char-foldcase", P_CH_FOLDCASE);
        vm.def_prim("digit-value", P_DIGIT_VALUE);
        vm.def_prim("make-string", P_MAKE_STRING);
        vm.def_prim("string", P_STRING);
        vm.def_prim("string-length", P_STR_LEN);
        vm.def_prim("string-ref", P_STR_REF);
        vm.def_prim("string-set!", P_STR_SET);
        vm.def_prim("string-append", P_STR_APPEND);
        vm.def_prim("string=?", P_STR_EQ);
        vm.def_prim("string<?", P_STR_LT);
        vm.def_prim("string>?", P_STR_GT);
        vm.def_prim("string<=?", P_STR_LE);
        vm.def_prim("string>=?", P_STR_GE);
        vm.def_prim("string-ci=?", P_STRCI_EQ);
        vm.def_prim("string-ci<?", P_STRCI_LT);
        vm.def_prim("string-ci>?", P_STRCI_GT);
        vm.def_prim("string-ci<=?", P_STRCI_LE);
        vm.def_prim("string-ci>=?", P_STRCI_GE);
        vm.def_prim("string-upcase", P_STR_UPCASE);
        vm.def_prim("string-downcase", P_STR_DOWNCASE);
        vm.def_prim("string-foldcase", P_STR_FOLDCASE);
        vm.def_prim("substring", P_SUBSTRING);
        vm.def_prim("string-copy", P_STR_COPY);
        vm.def_prim("string->list", P_STR_TO_LIST);
        vm.def_prim("list->string", P_LIST_TO_STR);
        vm.def_prim("string-fill!", P_STR_FILL);
        vm.def_prim("string->symbol", P_STR_TO_SYM);
        vm.def_prim("symbol->string", P_SYM_TO_STR);
        vm.def_prim("symbol=?", P_SYM_EQ);
        vm.def_prim("vector", P_VECTOR);
        vm.def_prim("make-vector", P_MAKE_VECTOR);
        vm.def_prim("vector-length", P_VEC_LEN);
        vm.def_prim("vector-ref", P_VEC_REF);
        vm.def_prim("vector-set!", P_VEC_SET);
        vm.def_prim("vector-fill!", P_VEC_FILL);
        vm.def_prim("vector->list", P_VEC_TO_LIST);
        vm.def_prim("list->vector", P_LIST_TO_VEC);
        vm.def_prim("append", P_APPEND);
        vm.def_prim("reverse", P_REVERSE);
        vm.def_prim("list-tail", P_LIST_TAIL);
        vm.def_prim("list-ref", P_LIST_REF);
        vm.def_prim("assoc", P_ASSOC);
        vm.def_prim("assq", P_ASSQ);
        vm.def_prim("assv", P_ASSV);
        vm.def_prim("set-car!", P_SET_CAR);
        vm.def_prim("set-cdr!", P_SET_CDR);
        vm.def_prim("exact->inexact", P_TO_INEXACT);
        vm.def_prim("inexact->exact", P_TO_EXACT);
        vm
    }
}

/// One step of evaluation: either a finished value or a tail position to
/// continue from.
pub enum StepR {
    Value(usize),
    Tail(usize, usize),
}

pub const EVAL_FUEL: u64 = 1000;
pub const STEP_BUDGET: u64 = 0xFFFF_FFFF_FFFF;

impl Vm {
    /// The handles of the elements of the pair chain at `h`, and the final
    /// tail (the chain's first non-pair).
    fn spine(&self, h: usize) -> (r: Option<(Vec<usize>, usize)>)
        requires
            self.wf(),
            h < self.heap@.len(),
        ensures
            r matches Some(p) ==> (forall|i: int|
                0 <= i < p.0@.len() ==> (#[trigger] p.0@[i]) < self.heap@.len()) && p.1
                < self.heap@.len(),
    {
        let mut items: Vec<usize> = Vec::new();
        let mut cur: usize = h;
        let mut budget: u64 = STEP_BUDGET;
        loop
            invariant
                self.wf(),
                cur < self.heap@.len(),
                forall|i: int| 0 <= i < items@.len() ==> (#[trigger] items@[i])
                    < self.heap@.len(),
            decreases budget,
        {
            if budget == 0 {
                return None;
            }
            budget = budget - 1;
            match self.get_pair(cur) {
                Some((a, d)) => {
                    items.push(a);
                    cur = d;
                },
                None => {
                    return Some((items, cur));
                },
            }
        }
    }

    /// Whether the node is the empty list.
    fn is_nil_h(&self, h: usize) -> (r: bool)
        requires
            self.wf(),
            h < self.heap@.len(),
        ensures
            r == (self.heap@[h as int] is Nil),
    {
        matches!(&self.heap[h], Node::Nil)
    }

    fn get_closure(&self, h: usize) -> (r: Option<(Vec<usize>, Option<usize>, Vec<usize>, usize)>)
        requires
            self.wf(),
            h < self.heap@.len(),
        ensures
            r matches Some(c) ==> {
                &&& forall|i: int| 0 <= i < c.0@.len() ==> (#[trigger] c.0@[i]) < self.syms@.len()
                &&& (c.1 matches Some(s) ==> s < self.syms@.len())
                &&& forall|i: int| 0 <= i < c.2@.len() ==> (#[trigger] c.2@[i])
                    < self.heap@.len()
                &&& c.3 < self.frames@.len()
            },
            (r is None) == !(self.heap@[h as int] is Closure),
    {
        match &self.heap[h] {
            Node::Closure(c) => {
                let params = copy_usizes(&c.params);
                let rest = c.rest;
                let body = copy_usizes(&c.body);
                let env = c.env;
                Some((params, rest, body, env))
            },
            _ => None,
        }
    }

    /// Builds a heap list of the given element handles, from index `from`.
    fn make_list_h(&mut self, items: &Vec<usize>, from: usize) -> (h: usize)
        requires
            old(self).wf(),
            from <= items@.len(),
            forall|i: int| 0 <= i < items@.len() ==> (#[trigger] items@[i])
                < old(self).heap@.len(),
        ensures
            final(self).wf(),
            final(self).extends(*old(self)),
            syms_kept(*old(self), *final(self)),
            final(self).frames == old(self).frames,
            final(self).syms == old(self).syms,
            h < final(self).heap@.len(),
        decreases items@.len() - from,
    {
        if from >= items.len() {
            self.alloc_node(Node::Nil)
        } else {
            let head = items[from];
            let rest = self.make_list_h(items, from + 1);
            self.alloc_node(Node::Pair(head, rest))
        }
    }

    /// Whether expression `h` is a `(define ...)` form.
    fn is_define_form(&self, h: usize) -> (r: bool)
        requires
            self.wf(),
            h < self.heap@.len(),
    {
        match self.get_pair(h) {
            Some((op, _)) => {
                match self.get_sym(op) {
                    Some(s) => s == S_DEFINE,
                    None => false,
                }
            },
            None => false,
        }
    }

    /// Validates a lambda body: internal defines may appear only as a
    /// prefix.  Returns the offending expression on failure.
    fn check_body(&self, body: &Vec<usize>) -> (r: Result<(), Error>)
        requires
            self.wf(),
            forall|i: int| 0 <= i < body@.len() ==> (#[trigger] body@[i]) < self.heap@.len(),
    {
        let mut seen_expr: bool = false;
        let mut i: usize = 0;
        while i < body.len()
            invariant
                self.wf(),
                i <= body@.len(),
                forall|k: int| 0 <= k < body@.len() ==> (#[trigger] body@[k])
                    < self.heap@.len(),
            decreases body@.len() - i,
        {
            if self.is_define_form(body[i]) {
                if seen_expr {
                    let msg = String::from_str("out of context: ").concat(
                        self.describe(body[i]).as_str(),
                    );
                    return Err(Error::InvalidDefineSyntax(msg));
                }
            } else {
                seen_expr = true;
            }
            i = i + 1;
        }
        Ok(())
    }

    /// Builds a closure from a parameter specification and a body.
    fn make_closure(&mut self, params_h: usize, body: Vec<usize>, env: usize) -> (r: Result<
        usize,
        Error,
    >)
        requires
            old(self).wf(),
            params_h < old(self).heap@.len(),
            env < old(self).frames@.len(),
            forall|i: int| 0 <= i < body@.len() ==> (#[trigger] body@[i])
                < old(self).heap@.len(),
        ensures
            final(self).wf(),
            final(self).extends(*old(self)),
            syms_kept(*old(self), *final(self)),
            r matches Ok(h) ==> h < final(self).heap@.len(),
    {
        self.check_body(&body)?;
        let mut params: Vec<usize> = Vec::new();
        let mut rest: Option<usize> = None;
        match self.get_sym(params_h) {
            Some(s) => {
                // (lambda args body): one symbol taking every argument
                if s < N_SPECIAL {
                    return Err(Error::InvalidUsePrimitive(special_name(s)));
                }
                rest = Some(s);
            },
            None => {
                let (names, tail) = match self.spine(params_h) {
                    Some(p) => p,
                    None => {
                        return Err(Error::ResourceExhausted);
                    },
                };
                let mut i: usize = 0;
                while i < names.len()
                    invariant
                        self.wf(),
                        i <= names@.len(),
                        forall|k: int| 0 <= k < names@.len() ==> (#[trigger] names@[k])
                            < self.heap@.len(),
                        forall|k: int| 0 <= k < params@.len() ==> (#[trigger] params@[k])
                            < self.syms@.len(),
                    decreases names@.len() - i,
                {
                    match self.get_sym(names[i]) {
                        Some(s) => {
                            if s < N_SPECIAL {
                                return Err(Error::InvalidUsePrimitive(special_name(s)));
                            }
                            params.push(s);
                        },
                        None => {
                            return Err(
                                Error::InvalidSyntax(
                                    String::from_str("expected parameter name but found ").concat(
                                        self.describe(names[i]).as_str(),
                                    ),
                                ),
                            );
                        },
                    }
                    i = i + 1;
                }
                if !self.is_nil_h(tail) {
                    // a dotted parameter list: the tail names the rest
                    match self.get_sym(tail) {
                        Some(s) => {
                            if s < N_SPECIAL {
                                return Err(Error::InvalidUsePrimitive(special_name(s)));
                            }
                            rest = Some(s);
                        },
                        None => {
                            return Err(
                                Error::InvalidSyntax(
                                    String::from_str("expected parameter name but found ").concat(
                                        self.describe(tail).as_str(),
                                    ),
                                ),
                            );
                        },
                    }
                }
            },
        }
        let c = ClosureData { params, rest, body, env };
        Ok(self.alloc_node(Node::Closure(c)))
    }

    /// Binds a closure's parameters to the given argument values in a
    /// fresh frame parenting the closure's captured environment.  Returns
    /// the new frame.
    fn bind_params(
        &mut self,
        params: &Vec<usize>,
        rest: Option<usize>,
        cenv: usize,
        vals: &Vec<usize>,
        who: String,
    ) -> (r: Result<usize, Error>)
        requires
            old(self).wf(),
            cenv < old(self).frames@.len(),
            forall|i: int| 0 <= i < params@.len() ==> (#[trigger] params@[i])
                < old(self).syms@.len(),
            rest matches Some(s) ==> s < old(self).syms@.len(),
            forall|i: int| 0 <= i < vals@.len() ==> (#[trigger] vals@[i])
                < old(self).heap@.len(),
        ensures
            final(self).wf(),
            final(self).extends(*old(self)),
            syms_kept(*old(self), *final(self)),
            r matches Ok(f) ==> f < final(self).frames@.len(),
    {
        let ok_arity = if matches!(rest, Option::<usize>::None) {
            vals.len() == params.len()
        } else {
            vals.len() >= params.len()
        };
        if !ok_arity {
            return Err(Error::InvalidNumArgs(who));
        }
        let nf = self.push_frame(cenv);
        let mut i: usize = 0;
        while i < params.len()
            invariant
                self.wf(),
                self.extends(*old(self)),
                syms_kept(*old(self), *self),
                i <= params@.len(),
                params@.len() <= vals@.len(),
                nf < self.frames@.len(),
                forall|k: int| 0 <= k < params@.len() ==> (#[trigger] params@[k])
                    < self.syms@.len(),
                forall|k: int| 0 <= k < vals@.len() ==> (#[trigger] vals@[k])
                    < self.heap@.len(),
                rest matches Some(s) ==> s < self.syms@.len(),
            decreases params@.len() - i,
        {
            self.frame_define(nf, params[i], vals[i]);
            i = i + 1;
        }
        match rest {
            Some(s) => {
                let tail = self.make_list_h(vals, params.len());
                proof {
                    assert(nf < self.frames@.len());
                }
                self.frame_define(nf, s, tail);
            },
            None => {},
        }
        Ok(nf)
    }

    /// Evaluates every expression of a body except the last, and hands the
    /// last back for tail evaluation.
    fn eval_body_prefix(&mut self, body: &Vec<usize>, env: usize, fuel: u64) -> (r: Result<
        Option<usize>,
        Error,
    >)
        requires
            old(self).wf(),
            env < old(self).frames@.len(),
            forall|i: int| 0 <= i < body@.len() ==> (#[trigger] body@[i])
                < old(self).heap@.len(),
            fuel >= 1,
        ensures
            final(self).wf(),
            final(self).extends(*old(self)),
            syms_kept(*old(self), *final(self)),
            r matches Ok(t) ==> (t matches Some(e) ==> e < final(self).heap@.len()),
        decreases fuel, 0int,
    {
        if body.len() == 0 {
            return Ok(None);
        }
        let n: usize = body.len();
        let mut i: usize = 0;
        while i + 1 < n
            invariant
                self.wf(),
                self.extends(*old(self)),
                syms_kept(*old(self), *self),
                i < n,
                n == body@.len(),
                env < self.frames@.len(),
                fuel >= 1,
                forall|k: int| 0 <= k < body@.len() ==> (#[trigger] body@[k])
                    < old(self).heap@.len(),
            decreases body@.len() - i,
        {
            match self.eval_h(body[i], env, fuel - 1) {
                Ok(_) => {},
                Err(e) => {
                    return Err(e);
                },
            }
            i = i + 1;
        }
        Ok(Some(body[body.len() - 1]))
    }

    /// Evaluates an expression: a trampoline that replaces the current
    /// expression and environment in place at every tail position, so tail
    /// calls run in constant stack space.  `fuel` bounds only genuine
    /// nesting (operands, tests, non-tail positions).
    pub fn eval_h(&mut self, expr0: usize, env0: usize, fuel: u64) -> (r: Result<usize, Error>)
        requires
            old(self).wf(),
            expr0 < old(self).heap@.len(),
            env0 < old(self).frames@.len(),
        ensures
            final(self).wf(),
            final(self).extends(*old(self)),
            syms_kept(*old(self), *final(self)),
            r matches Ok(v) ==> v < final(self).heap@.len(),
            (fuel >= 1 && is_quote_form(old(self), expr0)) ==> (*final(self) == *old(self) && r
                == Ok::<usize, Error>(quote_datum(old(self), expr0))),
        decreases fuel, 4int,
    {
        if fuel == 0 {
            return Err(Error::ResourceExhausted);
        }
        let mut cur: usize = expr0;
        let mut env: usize = env0;
        let mut steps: u64 = STEP_BUDGET;
        loop
            invariant
                self.wf(),
                self.extends(*old(self)),
                syms_kept(*old(self), *self),
                cur < self.heap@.len(),
                env < self.frames@.len(),
                fuel >= 1,
                is_quote_form(old(self), expr0) ==> (cur == expr0 && env == env0 && *self == *old(
                    self,
                ) && steps == STEP_BUDGET),
            decreases steps,
        {
            if steps == 0 {
                return Err(Error::ResourceExhausted);
            }
            steps = steps - 1;
            match self.step(cur, env, fuel) {
                Ok(StepR::Value(v)) => {
                    return Ok(v);
                },
                Ok(StepR::Tail(c, e)) => {
                    cur = c;
                    env = e;
                },
                Err(e) => {
                    return Err(e);
                },
            }
        }
    }
}

impl Vm {
    /// Evaluates a `define` form.
    fn do_define(&mut self, args_h: usize, env: usize, fuel: u64) -> (r: Result<usize, Error>)
        requires
            old(self).wf(),
            args_h < old(self).heap@.len(),
            env < old(self).frames@.len(),
            fuel >= 1,
        ensures
            final(self).wf(),
            final(self).extends(*old(self)),
            syms_kept(*old(self), *final(self)),
            r matches Ok(v) ==> v < final(self).heap@.len(),
        decreases fuel, 1int,
    {
        let (args, tail) = match self.spine(args_h) {
            Some(p) => p,
            None => {
                return Err(Error::ResourceExhausted);
            },
        };
        if !self.is_nil_h(tail) || args.len() < 1 {
            return Err(Error::InvalidNumArgs(String::from_str("define")));
        }
        let target = args[0];
        match self.get_sym(target) {
            Some(s) => {
                // (define name expr)
                if s < N_SPECIAL {
                    return Err(Error::InvalidUsePrimitive(special_name(s)));
                }
                if args.len() != 2 {
                    return Err(Error::InvalidNumArgs(String::from_str("define")));
                }
                let v = self.eval_h(args[1], env, fuel - 1)?;
                proof {
                    assert(env < self.frames@.len());
                }
                self.frame_define(env, s, v);
                Ok(self.alloc_node(Node::Void))
            },
            None => {
                // (define (name . params) body...): procedure shorthand
                match self.get_pair(target) {
                    Some((name_h, params_h)) => {
                        let s = match self.get_sym(name_h) {
                            Some(s) => s,
                            None => {
                                return Err(
                                    Error::InvalidDefineSyntax(
                                        String::from_str("out of context: ").concat(
                                            self.describe(args_h).as_str(),
                                        ),
                                    ),
                                );
                            },
                        };
                        if s < N_SPECIAL {
                            return Err(Error::InvalidUsePrimitive(special_name(s)));
                        }
                        let mut body: Vec<usize> = Vec::new();
                        let mut i: usize = 1;
                        while i < args.len()
                            invariant
                                self.wf(),
                                i <= args@.len(),
                                forall|k: int|
                                    0 <= k < args@.len() ==> (#[trigger] args@[k])
                                        < self.heap@.len(),
                                forall|k: int|
                                    0 <= k < body@.len() ==> (#[trigger] body@[k])
                                        < self.heap@.len(),
                            decreases args@.len() - i,
                        {
                            body.push(args[i]);
                            i = i + 1;
                        }
                        let cl = self.make_closure(params_h, body, env)?;
                        proof {
                            assert(env < self.frames@.len());
                        }
                        self.frame_define(env, s, cl);
                        Ok(self.alloc_node(Node::Void))
                    },
                    None => Err(
                        Error::InvalidDefineSyntax(
                            String::from_str("out of context: ").concat(
                                self.describe(args_h).as_str(),
                            ),
                        ),
                    ),
                }
            },
        }
    }

    /// Evaluates a `set!` form.
    fn do_set(&mut self, args_h: usize, env: usize, fuel: u64) -> (r: Result<usize, Error>)
        requires
            old(self).wf(),
            args_h < old(self).heap@.len(),
            env < old(self).frames@.len(),
            fuel >= 1,
        ensures
            final(self).wf(),
            final(self).extends(*old(self)),
            syms_kept(*old(self), *final(self)),
            r matches Ok(v) ==> v < final(self).heap@.len(),
        decreases fuel, 1int,
    {
        let (args, tail) = match self.spine(args_h) {
            Some(p) => p,
            None => {
                return Err(Error::ResourceExhausted);
            },
        };
        if !self.is_nil_h(tail) || args.len() != 2 {
            return Err(Error::InvalidNumArgs(String::from_str("set!")));
        }
        let s = match self.get_sym(args[0]) {
            Some(s) => s,
            None => {
                return Err(
                    Error::InvalidSyntax(
                        String::from_str("set! expected a name but found ").concat(
                            self.describe(args[0]).as_str(),
                        ),
                    ),
                );
            },
        };
        if s < N_SPECIAL {
            return Err(Error::InvalidUsePrimitive(special_name(s)));
        }
        let v = self.eval_h(args[1], env, fuel - 1)?;
        proof {
            assert(env < self.frames@.len());
        }
        let found = self.env_set(env, s, v);
        if !found {
            let t = self.sym_text(s);
            return Err(Error::VariableNotBound(chars_to_string(&t)));
        }
        Ok(self.alloc_node(Node::Void))
    }

    /// Dispatches one expression: either finishes with a value or names
    /// the next expression and environment of a tail position.
    fn step(&mut self, cur: usize, env: usize, fuel: u64) -> (r: Result<StepR, Error>)
        requires
            old(self).wf(),
            cur < old(self).heap@.len(),
            env < old(self).frames@.len(),
            fuel >= 1,
        ensures
            final(self).wf(),
            final(self).extends(*old(self)),
            syms_kept(*old(self), *final(self)),
            r matches Ok(s) ==> (s matches StepR::Value(v) ==> v < final(self).heap@.len()) && (
            s matches StepR::Tail(c, e) ==> c < final(self).heap@.len() && e < final(self).frames@.len()),
            is_quote_form(old(self), cur) ==> (*final(self) == *old(self) && r == Ok::<
                StepR,
                Error,
            >(StepR::Value(quote_datum(old(self), cur)))),
        decreases fuel, 3int,
    {
        // symbols: special forms are not values; otherwise look outward
        match self.get_sym(cur) {
            Some(s) => {
                if s < N_SPECIAL {
                    return Err(Error::InvalidUsePrimitive(special_name(s)));
                }
                match self.env_lookup(env, s) {
                    Some(v) => {
                        return Ok(StepR::Value(v));
                    },
                    None => {
                        let t = self.sym_text(s);
                        return Err(Error::VariableNotBound(chars_to_string(&t)));
                    },
                }
            },
            None => {},
        }
        if self.is_nil_h(cur) {
            return Err(Error::UnquotedNil);
        }
        let (op_h, args_h) = match self.get_pair(cur) {
            Some(p) => p,
            None => {
                // everything else is self-evaluating
                return Ok(StepR::Value(cur));
            },
        };
        // special forms
        match self.get_sym(op_h) {
            Some(s) if s == S_QUOTE => {
                match self.get_pair(args_h) {
                    Some((x, _)) => {
                        return Ok(StepR::Value(x));
                    },
                    None => {
                        return Err(Error::InvalidNumArgs(String::from_str("quote")));
                    },
                }
            },
            Some(s) if s == S_IF => {
                let (args, tail) = match self.spine(args_h) {
                    Some(p) => p,
                    None => {
                        return Err(Error::ResourceExhausted);
                    },
                };
                if !self.is_nil_h(tail) || args.len() < 2 || args.len() > 3 {
                    return Err(Error::InvalidNumArgs(String::from_str("if")));
                }
                let t = self.eval_h(args[0], env, fuel - 1)?;
                proof {
                    assert(args@[1] < self.heap@.len());
                }
                if self.truthy(t) {
                    return Ok(StepR::Tail(args[1], env));
                }
                if args.len() == 3 {
                    return Ok(StepR::Tail(args[2], env));
                }
                let v = self.alloc_node(Node::Void);
                return Ok(StepR::Value(v));
            },
            Some(s) if s == S_DEFINE => {
                let v = self.do_define(args_h, env, fuel)?;
                return Ok(StepR::Value(v));
            },
            Some(s) if s == S_SET => {
                let v = self.do_set(args_h, env, fuel)?;
                return Ok(StepR::Value(v));
            },
            Some(s) if s == S_LAMBDA => {
                let (args, tail) = match self.spine(args_h) {
                    Some(p) => p,
                    None => {
                        return Err(Error::ResourceExhausted);
                    },
                };
                if !self.is_nil_h(tail) || args.len() < 1 {
                    return Err(Error::InvalidNumArgs(String::from_str("lambda")));
                }
                let params_h = args[0];
                let mut body: Vec<usize> = Vec::new();
                let mut i: usize = 1;
                while i < args.len()
                    invariant
                        self.wf(),
                        i <= args@.len(),
                        forall|k: int|
                            0 <= k < args@.len() ==> (#[trigger] args@[k]) < self.heap@.len(),
                        forall|k: int|
                            0 <= k < body@.len() ==> (#[trigger] body@[k]) < self.heap@.len(),
                    decreases args@.len() - i,
                {
                    body.push(args[i]);
                    i = i + 1;
                }
                let cl = self.make_closure(params_h, body, env)?;
                return Ok(StepR::Value(cl));
            },
            Some(s) if s == S_BEGIN => {
                let (args, tail) = match self.spine(args_h) {
                    Some(p) => p,
                    None => {
                        return Err(Error::ResourceExhausted);
                    },
                };
                if !self.is_nil_h(tail) || args.len() == 0 {
                    return Err(Error::InvalidNumArgs(String::from_str("begin")));
                }
                let n: usize = args.len();
                let ghost h0: nat = self.heap@.len();
                let mut i: usize = 0;
                while i + 1 < n
                    invariant
                        self.wf(),
                        self.extends(*old(self)),
                        syms_kept(*old(self), *self),
                        !is_quote_form(old(self), cur),
                        i < n,
                        n == args@.len(),
                        env < self.frames@.len(),
                        fuel >= 1,
                        h0 <= self.heap@.len(),
                        forall|k: int|
                            0 <= k < args@.len() ==> (#[trigger] args@[k]) < h0,
                    decreases args@.len() - i,
                {
                    match self.eval_h(args[i], env, fuel - 1) {
                        Ok(_) => {},
                        Err(e) => {
                            return Err(e);
                        },
                    }
                    i = i + 1;
                }
                return Ok(StepR::Tail(args[n - 1], env));
            },
            Some(s) if s == S_AND || s == S_OR => {
                let want_true = s == S_AND;
                let (args, tail) = match self.spine(args_h) {
                    Some(p) => p,
                    None => {
                        return Err(Error::ResourceExhausted);
                    },
                };
                if !self.is_nil_h(tail) {
                    return Err(Error::InvalidNumArgs(special_name(s)));
                }
                if args.len() == 0 {
                    let v = self.alloc_node(Node::Bool(want_true));
                    return Ok(StepR::Value(v));
                }
                let n: usize = args.len();
                let mut i: usize = 0;
                while i + 1 < n
                    invariant
                        self.wf(),
                        self.extends(*old(self)),
                        syms_kept(*old(self), *self),
                        !is_quote_form(old(self), cur),
                        i < n,
                        n == args@.len(),
                        env < self.frames@.len(),
                        fuel >= 1,
                        forall|k: int|
                            0 <= k < args@.len() ==> (#[trigger] args@[k])
                                < old(self).heap@.len(),
                    decreases args@.len() - i,
                {
                    match self.eval_h(args[i], env, fuel - 1) {
                        Ok(v) => {
                            if self.truthy(v) != want_true {
                                return Ok(StepR::Value(v));
                            }
                        },
                        Err(e) => {
                            return Err(e);
                        },
                    }
                    i = i + 1;
                }
                return Ok(StepR::Tail(args[args.len() - 1], env));
            },
            Some(s) if s == S_UNLESS => {
                let (args, tail) = match self.spine(args_h) {
                    Some(p) => p,
                    None => {
                        return Err(Error::ResourceExhausted);
                    },
                };
                if !self.is_nil_h(tail) || args.len() < 1 {
                    return Err(Error::InvalidNumArgs(String::from_str("unless")));
                }
                let t = self.eval_h(args[0], env, fuel - 1)?;
                if self.truthy(t) || args.len() == 1 {
                    let v = self.alloc_node(Node::Void);
                    return Ok(StepR::Value(v));
                }
                let n: usize = args.len();
                let ghost h0: nat = self.heap@.len();
                let mut i: usize = 1;
                while i + 1 < n
                    invariant
                        self.wf(),
                        self.extends(*old(self)),
                        syms_kept(*old(self), *self),
                        !is_quote_form(old(self), cur),
                        1 <= i < n,
                        n == args@.len(),
                        env < self.frames@.len(),
                        fuel >= 1,
                        h0 <= self.heap@.len(),
                        forall|k: int|
                            0 <= k < args@.len() ==> (#[trigger] args@[k]) < h0,
                    decreases args@.len() - i,
                {
                    match self.eval_h(args[i], env, fuel - 1) {
                        Ok(_) => {},
                        Err(e) => {
                            return Err(e);
                        },
                    }
                    i = i + 1;
                }
                return Ok(StepR::Tail(args[args.len() - 1], env));
            },
            Some(s) if s == S_COND => {
                let (clauses, tail) = match self.spine(args_h) {
                    Some(p) => p,
                    None => {
                        return Err(Error::ResourceExhausted);
                    },
                };
                if !self.is_nil_h(tail) {
                    return Err(Error::InvalidNumArgs(String::from_str("cond")));
                }
                let mut i: usize = 0;
                while i < clauses.len()
                    invariant
                        self.wf(),
                        self.extends(*old(self)),
                        syms_kept(*old(self), *self),
                        !is_quote_form(old(self), cur),
                        i <= clauses@.len(),
                        env < self.frames@.len(),
                        fuel >= 1,
                        forall|k: int|
                            0 <= k < clauses@.len() ==> (#[trigger] clauses@[k])
                                < old(self).heap@.len(),
                    decreases clauses@.len() - i,
                {
                    let (parts, ctail) = match self.spine(clauses[i]) {
                        Some(p) => p,
                        None => {
                            return Err(Error::ResourceExhausted);
                        },
                    };
                    if !self.is_nil_h(ctail) || parts.len() < 1 {
                        return Err(
                            Error::InvalidSyntax(
                                String::from_str("bad cond clause: ").concat(
                                    self.describe(clauses[i]).as_str(),
                                ),
                            ),
                        );
                    }
                    let is_else = match self.get_sym(parts[0]) {
                        Some(sy) => sy == SYM_ELSE,
                        None => false,
                    };
                    let tv: usize = if is_else {
                        self.alloc_node(Node::Bool(true))
                    } else {
                        match self.eval_h(parts[0], env, fuel - 1) {
                            Ok(v) => v,
                            Err(e) => {
                                return Err(e);
                            },
                        }
                    };
                    if self.truthy(tv) {
                        if parts.len() == 1 {
                            return Ok(StepR::Value(tv));
                        }
                        let pn: usize = parts.len();
                        let mut j: usize = 1;
                        while j + 1 < pn
                            invariant
                                self.wf(),
                                self.extends(*old(self)),
                                syms_kept(*old(self), *self),
                                !is_quote_form(old(self), cur),
                                1 <= j < pn,
                                pn == parts@.len(),
                                env < self.frames@.len(),
                                fuel >= 1,
                                forall|k: int|
                                    0 <= k < parts@.len() ==> (#[trigger] parts@[k])
                                        < self.heap@.len(),
                            decreases parts@.len() - j,
                        {
                            match self.eval_h(parts[j], env, fuel - 1) {
                                Ok(_) => {},
                                Err(e) => {
                                    return Err(e);
                                },
                            }
                            j = j + 1;
                        }
                        return Ok(StepR::Tail(parts[parts.len() - 1], env));
                    }
                    i = i + 1;
                }
                let v = self.alloc_node(Node::Void);
                return Ok(StepR::Value(v));
            },
            Some(s) if s == S_LET || s == S_LETSTAR => {
                return self.do_let(s, args_h, env, fuel);
            },
            Some(s) if s < N_SPECIAL => {
                return Err(Error::InvalidUsePrimitive(special_name(s)));
            },
            _ => {},
        }
        // application
        let f = self.eval_h(op_h, env, fuel - 1)?;
        let (arg_es, atail) = match self.spine(args_h) {
            Some(p) => p,
            None => {
                return Err(Error::ResourceExhausted);
            },
        };
        if !self.is_nil_h(atail) {
            return Err(
                Error::InvalidSyntax(
                    String::from_str("improper argument list: ").concat(
                        self.describe(args_h).as_str(),
                    ),
                ),
            );
        }
        let mut vals: Vec<usize> = Vec::new();
        let ghost h0: nat = self.heap@.len();
        let mut i: usize = 0;
        while i < arg_es.len()
            invariant
                self.wf(),
                self.extends(*old(self)),
                syms_kept(*old(self), *self),
                !is_quote_form(old(self), cur),
                i <= arg_es@.len(),
                env < self.frames@.len(),
                fuel >= 1,
                f < self.heap@.len(),
                h0 <= self.heap@.len(),
                forall|k: int|
                    0 <= k < arg_es@.len() ==> (#[trigger] arg_es@[k]) < h0,
                forall|k: int| 0 <= k < vals@.len() ==> (#[trigger] vals@[k])
                    < self.heap@.len(),
            decreases arg_es@.len() - i,
        {
            let ghost pre = *self;
            match self.eval_h(arg_es[i], env, fuel - 1) {
                Ok(v) => {
                    proof {
                        assert forall|k: int|
                            0 <= k < vals@.len() implies (#[trigger] vals@[k])
                            < self.heap@.len() by {
                            assert(vals@[k] < pre.heap@.len());
                        }
                    }
                    vals.push(v);
                },
                Err(e) => {
                    return Err(e);
                },
            }
            i = i + 1;
        }
        self.apply(f, vals, fuel)
    }

    /// Applies a procedure value to evaluated arguments.  A closure hands
    /// back a tail position; a primitive finishes here.
    fn apply(&mut self, f: usize, vals: Vec<usize>, fuel: u64) -> (r: Result<StepR, Error>)
        requires
            old(self).wf(),
            f < old(self).heap@.len(),
            forall|i: int| 0 <= i < vals@.len() ==> (#[trigger] vals@[i])
                < old(self).heap@.len(),
            fuel >= 1,
        ensures
            final(self).wf(),
            final(self).extends(*old(self)),
            syms_kept(*old(self), *final(self)),
            r matches Ok(s) ==> (s matches StepR::Value(v) ==> v < final(self).heap@.len()) && (
            s matches StepR::Tail(c, e) ==> c < final(self).heap@.len() && e < final(self).frames@.len()),
        decreases fuel, 1int,
    {
        match self.get_closure(f) {
            Some((params, rest, body, cenv)) => {
                let nf = self.bind_params(
                    &params,
                    rest,
                    cenv,
                    &vals,
                    String::from_str("#<lambda>"),
                )?;
                let last = self.eval_body_prefix(&body, nf, fuel)?;
                match last {
                    Some(e) => Ok(StepR::Tail(e, nf)),
                    None => {
                        let v = self.alloc_node(Node::Void);
                        Ok(StepR::Value(v))
                    },
                }
            },
            None => {
                let code = match &self.heap[f] {
                    Node::Prim(c) => Some(*c),
                    _ => None,
                };
                match code {
                    Some(c) => {
                        let v = self.apply_prim(c, vals)?;
                        Ok(StepR::Value(v))
                    },
                    None => Err(Error::InvalidProcedure(self.describe(f))),
                }
            },
        }
    }

    /// Evaluates `let`, named `let`, and `let*`.
    fn do_let(&mut self, s: usize, args_h: usize, env: usize, fuel: u64) -> (r: Result<
        StepR,
        Error,
    >)
        requires
            old(self).wf(),
            args_h < old(self).heap@.len(),
            env < old(self).frames@.len(),
            fuel >= 1,
        ensures
            final(self).wf(),
            final(self).extends(*old(self)),
            syms_kept(*old(self), *final(self)),
            r matches Ok(st) ==> (st matches StepR::Value(v) ==> v < final(self).heap@.len()) && (
            st matches StepR::Tail(c, e) ==> c < final(self).heap@.len() && e < final(self).frames@.len()),
        decreases fuel, 2int,
    {
        let (args, tail) = match self.spine(args_h) {
            Some(p) => p,
            None => {
                return Err(Error::ResourceExhausted);
            },
        };
        if !self.is_nil_h(tail) || args.len() < 1 {
            return Err(Error::InvalidNumArgs(String::from_str("let")));
        }
        // named let: (let name ((x v) ...) body ...)
        let name: Option<usize> = if s == S_LET {
            match self.get_sym(args[0]) {
                Some(n) => Some(n),
                None => None,
            }
        } else {
            None
        };
        let first: usize = if matches!(name, Option::<usize>::None) {
            0
        } else {
            1
        };
        if args.len() < first + 1 {
            return Err(Error::InvalidNumArgs(String::from_str("let")));
        }
        let (binds, btail) = match self.spine(args[first]) {
            Some(p) => p,
            None => {
                return Err(Error::ResourceExhausted);
            },
        };
        if !self.is_nil_h(btail) {
            return Err(
                Error::InvalidSyntax(
                    String::from_str("bad let bindings: ").concat(
                        self.describe(args[first]).as_str(),
                    ),
                ),
            );
        }
        // collect the names and initialiser expressions
        let mut names: Vec<usize> = Vec::new();
        let mut inits: Vec<usize> = Vec::new();
        let mut i: usize = 0;
        while i < binds.len()
            invariant
                self.wf(),
                i <= binds@.len(),
                forall|k: int| 0 <= k < binds@.len() ==> (#[trigger] binds@[k])
                    < self.heap@.len(),
                names@.len() == inits@.len(),
                forall|k: int| 0 <= k < names@.len() ==> (#[trigger] names@[k])
                    < self.syms@.len(),
                forall|k: int| 0 <= k < inits@.len() ==> (#[trigger] inits@[k])
                    < self.heap@.len(),
            decreases binds@.len() - i,
        {
            let (parts, ptail) = match self.spine(binds[i]) {
                Some(p) => p,
                None => {
                    return Err(Error::ResourceExhausted);
                },
            };
            if !self.is_nil_h(ptail) || parts.len() != 2 {
                return Err(
                    Error::InvalidSyntax(
                        String::from_str("bad let binding: ").concat(
                            self.describe(binds[i]).as_str(),
                        ),
                    ),
                );
            }
            let sy = match self.get_sym(parts[0]) {
                Some(sy) => sy,
                None => {
                    return Err(
                        Error::InvalidSyntax(
                            String::from_str("bad let binding: ").concat(
                                self.describe(binds[i]).as_str(),
                            ),
                        ),
                    );
                },
            };
            if sy < N_SPECIAL {
                return Err(Error::InvalidUsePrimitive(special_name(sy)));
            }
            names.push(sy);
            inits.push(parts[1]);
            i = i + 1;
        }
        // the body
        let mut body: Vec<usize> = Vec::new();
        let mut j: usize = first + 1;
        while j < args.len()
            invariant
                self.wf(),
                j <= args@.len(),
                forall|k: int| 0 <= k < args@.len() ==> (#[trigger] args@[k])
                    < self.heap@.len(),
                forall|k: int| 0 <= k < body@.len() ==> (#[trigger] body@[k])
                    < self.heap@.len(),
            decreases args@.len() - j,
        {
            body.push(args[j]);
            j = j + 1;
        }
        match name {
            Some(n) => {
                // bind the loop name to a closure over a fresh frame
                if n < N_SPECIAL {
                    return Err(Error::InvalidUsePrimitive(special_name(n)));
                }
                let lf = self.push_frame(env);
                let c = ClosureData { params: names, rest: None, body, env: lf };
                let cl = self.alloc_node(Node::Closure(c));
                proof {
                    assert(lf < self.frames@.len());
                }
                self.frame_define(lf, n, cl);
                // evaluate the initialisers in the outer environment
                let mut vals: Vec<usize> = Vec::new();
                let ghost h1: nat = self.heap@.len();
                let mut k: usize = 0;
                while k < inits.len()
                    invariant
                        self.wf(),
                        self.extends(*old(self)),
                        syms_kept(*old(self), *self),
                        k <= inits@.len(),
                        env < self.frames@.len(),
                        cl < self.heap@.len(),
                        fuel >= 1,
                        h1 <= self.heap@.len(),
                        forall|m: int| 0 <= m < inits@.len() ==> (#[trigger] inits@[m]) < h1,
                        forall|m: int| 0 <= m < vals@.len() ==> (#[trigger] vals@[m])
                            < self.heap@.len(),
                    decreases inits@.len() - k,
                {
                    let ghost pre = *self;
                    match self.eval_h(inits[k], env, fuel - 1) {
                        Ok(v) => {
                            proof {
                                assert forall|m: int|
                                    0 <= m < vals@.len() implies (#[trigger] vals@[m])
                                    < self.heap@.len() by {
                                    assert(vals@[m] < pre.heap@.len());
                                }
                            }
                            vals.push(v);
                        },
                        Err(e) => {
                            return Err(e);
                        },
                    }
                    k = k + 1;
                }
                self.apply(cl, vals, fuel)
            },
            None => {
                let nf_parent: usize = env;
                let star = s == S_LETSTAR;
                let nf = self.push_frame(nf_parent);
                let ghost h1: nat = self.heap@.len();
                let mut k: usize = 0;
                while k < names.len()
                    invariant
                        self.wf(),
                        self.extends(*old(self)),
                        syms_kept(*old(self), *self),
                        k <= names@.len(),
                        names@.len() == inits@.len(),
                        env < self.frames@.len(),
                        nf < self.frames@.len(),
                        fuel >= 1,
                        h1 <= self.heap@.len(),
                        forall|m: int| 0 <= m < names@.len() ==> (#[trigger] names@[m])
                            < self.syms@.len(),
                        forall|m: int| 0 <= m < inits@.len() ==> (#[trigger] inits@[m]) < h1,
                    decreases names@.len() - k,
                {
                    // let evaluates in the outer scope, let* in the new one
                    let e = if star {
                        nf
                    } else {
                        env
                    };
                    match self.eval_h(inits[k], e, fuel - 1) {
                        Ok(v) => {
                            self.frame_define(nf, names[k], v);
                        },
                        Err(e2) => {
                            return Err(e2);
                        },
                    }
                    k = k + 1;
                }
                let last = self.eval_body_prefix(&body, nf, fuel)?;
                match last {
                    Some(e) => Ok(StepR::Tail(e, nf)),
                    None => {
                        let v = self.alloc_node(Node::Void);
                        Ok(StepR::Value(v))
                    },
                }
            },
        }
    }

}

impl Vm {
    /// Overwrites a live node in place: the mutation every holder of the
    /// handle sees.
    fn set_node(&mut self, h: usize, n: Node)
        requires
            old(self).wf(),
            h < old(self).heap@.len(),
            !(old(self).heap@[h as int] is Free),
            node_wf(n, old(self).heap@.len(), old(self).syms@.len(), old(self).frames@.len()),
        ensures
            final(self).wf(),
            final(self).extends(*old(self)),
            final(self).frames == old(self).frames,
            final(self).syms == old(self).syms,
            final(self).heap@.len() == old(self).heap@.len(),
            final(self).heap@[h as int] == n,
            forall|i: int|
                0 <= i < old(self).heap@.len() && i != h ==> final(self).heap@[i] == old(
                    self,
                ).heap@[i],
    {
        self.heap[h] = n;
        proof {
            assert forall|i: int|
                0 <= i < self.heap@.len() implies node_wf(
                #[trigger] self.heap@[i],
                self.heap@.len(),
                self.syms@.len(),
                self.frames@.len(),
            ) by {
                if i != h {
                    assert(self.heap@[i] == old(self).heap@[i]);
                }
            }
            assert forall|i: int|
                0 <= i < self.free@.len() implies (#[trigger] self.free@[i])
                < self.heap@.len() && (self.heap@[self.free@[i] as int] is Free) by {
                assert(old(self).heap@[self.free@[i] as int] is Free);
                assert(self.free@[i] != h);
            }
        }
    }

    fn err_args(&self, code: u32, expect: &str, h: usize) -> (r: Error)
        requires
            self.wf(),
            h < self.heap@.len(),
    {
        Error::InvalidArgs(prim_name(code), String::from_str(expect), self.describe(h))
    }

    fn want_num(&self, code: u32, h: usize) -> (r: Result<Number, Error>)
        requires
            self.wf(),
            h < self.heap@.len(),
        ensures
            r matches Ok(n) ==> number_wf(n),
    {
        match self.get_num(h) {
            Some(n) => Ok(n),
            None => Err(self.err_args(code, "number", h)),
        }
    }

    fn want_int(&self, code: u32, h: usize) -> (r: Result<i64, Error>)
        requires
            self.wf(),
            h < self.heap@.len(),
    {
        match self.get_num(h) {
            Some(n) => match crate::number::as_int(&n) {
                Some(i) => Ok(i),
                None => Err(self.err_args(code, "integer", h)),
            },
            None => Err(self.err_args(code, "number", h)),
        }
    }

    fn want_char(&self, code: u32, h: usize) -> (r: Result<char, Error>)
        requires
            self.wf(),
            h < self.heap@.len(),
    {
        match &self.heap[h] {
            Node::Ch(c) => Ok(*c),
            _ => Err(self.err_args(code, "char", h)),
        }
    }

    /// A copy of the characters of the string at `h`.
    fn want_chars(&self, code: u32, h: usize) -> (r: Result<Vec<char>, Error>)
        requires
            self.wf(),
            h < self.heap@.len(),
        ensures
            r is Ok ==> self.heap@[h as int] is Strg,
    {
        match &self.heap[h] {
            Node::Strg(v) => Ok(copy_chars(v)),
            _ => Err(self.err_args(code, "string", h)),
        }
    }

    /// A copy of the element handles of the vector at `h`; anything else
    /// reports "is not a vector".
    fn want_vect(&self, h: usize) -> (r: Result<Vec<usize>, Error>)
        requires
            self.wf(),
            h < self.heap@.len(),
        ensures
            r matches Ok(v) ==> forall|i: int|
                0 <= i < v@.len() ==> (#[trigger] v@[i]) < self.heap@.len(),
            r is Ok ==> self.heap@[h as int] is Vect,
    {
        match &self.heap[h] {
            Node::Vect(v) => Ok(copy_usizes(v)),
            _ => Err(
                Error::InvalidSyntax(self.describe(h).concat(" is not a vector")),
            ),
        }
    }

    /// The elements of a proper list, or the "improper list" error.
    fn want_list(&self, h: usize) -> (r: Result<Vec<usize>, Error>)
        requires
            self.wf(),
            h < self.heap@.len(),
        ensures
            r matches Ok(v) ==> forall|i: int|
                0 <= i < v@.len() ==> (#[trigger] v@[i]) < self.heap@.len(),
    {
        let (items, tail) = match self.spine(h) {
            Some(p) => p,
            None => {
                return Err(Error::ResourceExhausted);
            },
        };
        if !self.is_nil_h(tail) {
            return Err(Error::InvalidSyntax(self.describe(h).concat(" is an improper list")));
        }
        Ok(items)
    }

    fn arity(&self, code: u32, args: &Vec<usize>, n: usize) -> (r: Result<(), Error>)
        ensures
            r is Ok ==> args@.len() == n,
    {
        if args.len() == n {
            Ok(())
        } else {
            Err(Error::InvalidNumArgs(prim_name(code)))
        }
    }

    /// `car` of a pair, with the "expected pair" error otherwise.
    pub fn prim_car(&self, h: usize) -> (r: Result<usize, Error>)
        requires
            self.wf(),
            h < self.heap@.len(),
        ensures
            match r {
                Ok(v) => self.heap@[h as int] matches Node::Pair(a, _) && v == a && v
                    < self.heap@.len(),
                Err(e) => !(self.heap@[h as int] is Pair) && e is ExpectedPairButFound,
            },
    {
        match self.get_pair(h) {
            Some((a, _)) => Ok(a),
            None => Err(Error::ExpectedPairButFound(self.describe(h))),
        }
    }

    /// `cdr` of a pair, with the "expected pair" error otherwise.
    pub fn prim_cdr(&self, h: usize) -> (r: Result<usize, Error>)
        requires
            self.wf(),
            h < self.heap@.len(),
        ensures
            match r {
                Ok(v) => self.heap@[h as int] matches Node::Pair(_, d) && v == d && v
                    < self.heap@.len(),
                Err(e) => !(self.heap@[h as int] is Pair) && e is ExpectedPairButFound,
            },
    {
        match self.get_pair(h) {
            Some((_, d)) => Ok(d),
            None => Err(Error::ExpectedPairButFound(self.describe(h))),
        }
    }

    fn bool_v(&mut self, b: bool) -> (r: usize)
        requires
            old(self).wf(),
        ensures
            final(self).wf(),
            final(self).extends(*old(self)),
            final(self).syms == old(self).syms,
            final(self).frames == old(self).frames,
            r < final(self).heap@.len(),
            final(self).heap@[r as int] == Node::Bool(b),
    {
        self.alloc_node(Node::Bool(b))
    }

    fn num_v(&mut self, n: Number) -> (r: usize)
        requires
            old(self).wf(),
            number_wf(n),
        ensures
            final(self).wf(),
            final(self).extends(*old(self)),
            final(self).syms == old(self).syms,
            final(self).frames == old(self).frames,
            r < final(self).heap@.len(),
            final(self).heap@[r as int] == Node::Num(n),
    {
        self.alloc_node(Node::Num(n))
    }

    /// Whether the value is a proper list (`list?`).
    fn is_proper_list(&self, h: usize) -> (r: bool)
        requires
            self.wf(),
            h < self.heap@.len(),
    {
        let mut cur: usize = h;
        let mut budget: u64 = STEP_BUDGET;
        loop
            invariant
                self.wf(),
                cur < self.heap@.len(),
            decreases budget,
        {
            if budget == 0 {
                return false;
            }
            budget = budget - 1;
            match self.get_pair(cur) {
                Some((_, d)) => {
                    cur = d;
                },
                None => {
                    return self.is_nil_h(cur);
                },
            }
        }
    }

    /// `equal?`: deep structural comparison of the two values.  Whatever
    /// data trees the two handles stand for, the answer is their
    /// structural equality.
    pub fn equal_h(&self, a: usize, b: usize) -> (r: Result<bool, Error>)
        requires
            self.wf(),
            a < self.heap@.len(),
            b < self.heap@.len(),
        ensures
            r matches Ok(x) ==> forall|ca: Cell, cb: Cell|
                represents(self, a, ca) && represents(self, b, cb) && crate::cell::cell_is_data(ca)
                    && crate::cell::cell_is_data(cb) ==> x == crate::cell::cell_eq_spec(ca, cb),
            forall|ca: Cell, cb: Cell|
                #[trigger] represents(self, a, ca) && #[trigger] represents(self, b, cb)
                    && cell_height(ca) <= EXTRACT_DEPTH && cell_size(ca) < SPINE_BUDGET
                    && cell_height(cb) <= EXTRACT_DEPTH && cell_size(cb) < SPINE_BUDGET ==> r is Ok,
    {
        let ra = self.extract(a, EXTRACT_DEPTH);
        let ca2 = match ra {
            Ok(c) => c,
            Err(e) => {
                proof {
                    assert forall|ca: Cell, cb: Cell|
                        #[trigger] represents(self, a, ca) && #[trigger] represents(self, b, cb)
                            && cell_height(ca) <= EXTRACT_DEPTH && cell_size(ca) < SPINE_BUDGET
                            && cell_height(cb) <= EXTRACT_DEPTH && cell_size(cb)
                            < SPINE_BUDGET implies false by {}
                }
                return Err(e);
            },
        };
        let rb = self.extract(b, EXTRACT_DEPTH);
        let cb2 = match rb {
            Ok(c) => c,
            Err(e) => {
                proof {
                    assert forall|ca: Cell, cb: Cell|
                        #[trigger] represents(self, a, ca) && #[trigger] represents(self, b, cb)
                            && cell_height(ca) <= EXTRACT_DEPTH && cell_size(ca) < SPINE_BUDGET
                            && cell_height(cb) <= EXTRACT_DEPTH && cell_size(cb)
                            < SPINE_BUDGET implies false by {}
                }
                return Err(e);
            },
        };
        let x = crate::cell::cell_equal(&ca2, &cb2);
        proof {
            assert forall|ca: Cell, cb: Cell|
                represents(self, a, ca) && represents(self, b, cb) && crate::cell::cell_is_data(ca)
                    && crate::cell::cell_is_data(cb) implies x == crate::cell::cell_eq_spec(
                ca,
                cb,
            ) by {
                lemma_represents_functional(self, a, ca, ca2);
                lemma_represents_functional(self, b, cb, cb2);
                crate::cell::lemma_cell_eq_sym(ca, ca2);
                crate::cell::lemma_cell_eq_sym(cb, cb2);
                if crate::cell::cell_eq_spec(ca, cb) {
                    crate::cell::lemma_cell_eq_trans(ca2, ca, cb);
                    crate::cell::lemma_cell_eq_trans(ca2, cb, cb2);
                }
                if crate::cell::cell_eq_spec(ca2, cb2) {
                    crate::cell::lemma_cell_eq_trans(ca, ca2, cb2);
                    crate::cell::lemma_cell_eq_trans(ca, cb2, cb);
                }
            }
        }
        Ok(x)
    }
}

pub const MAX_SEQ: usize = 10000000;

fn chars_cmp(a: &Vec<char>, b: &Vec<char>) -> (r: i8)
    ensures
        -1 <= r <= 1,
{
    let n: usize = if a.len() < b.len() {
        a.len()
    } else {
        b.len()
    };
    let mut i: usize = 0;
    while i < n
        invariant
            i <= n,
            n <= a@.len(),
            n <= b@.len(),
        decreases n - i,
    {
        let x = a[i] as u32;
        let y = b[i] as u32;
        if x < y {
            return -1;
        }
        if x > y {
            return 1;
        }
        i = i + 1;
    }
    if a.len() < b.len() {
        -1
    } else if a.len() > b.len() {
        1
    } else {
        0
    }
}

/// The full lowercase mapping of the text, character by character.
fn fold_lower(a: &Vec<char>) -> (r: Vec<char>) {
    let mut out: Vec<char> = Vec::new();
    let mut i: usize = 0;
    while i < a.len()
        invariant
            i <= a@.len(),
        decreases a@.len() - i,
    {
        let m = crate::chars::char_lower_chars(a[i]);
        let mut j: usize = 0;
        while j < m.len()
            invariant
                j <= m@.len(),
            decreases m@.len() - j,
        {
            out.push(m[j]);
            j = j + 1;
        }
        i = i + 1;
    }
    out
}

/// The full uppercase mapping of the text, character by character.
fn fold_upper(a: &Vec<char>) -> (r: Vec<char>) {
    let mut out: Vec<char> = Vec::new();
    let mut i: usize = 0;
    while i < a.len()
        invariant
            i <= a@.len(),
        decreases a@.len() - i,
    {
        let m = crate::chars::char_upper_chars(a[i]);
        let mut j: usize = 0;
        while j < m.len()
            invariant
                j <= m@.len(),
            decreases m@.len() - j,
        {
            out.push(m[j]);
            j = j + 1;
        }
        i = i + 1;
    }
    out
}

impl Vm {
    /// Builds a heap list of `items[from..]` ending at the handle `tail`.
    fn make_list_tail(&mut self, items: &Vec<usize>, from: usize, tail: usize) -> (h: usize)
        requires
            old(self).wf(),
            from <= items@.len(),
            tail < old(self).heap@.len(),
            forall|i: int| 0 <= i < items@.len() ==> (#[trigger] items@[i])
                < old(self).heap@.len(),
        ensures
            final(self).wf(),
            final(self).extends(*old(self)),
            syms_kept(*old(self), *final(self)),
            h < final(self).heap@.len(),
        decreases items@.len() - from,
    {
        if from >= items.len() {
            tail
        } else {
            let head = items[from];
            let rest = self.make_list_tail(items, from + 1, tail);
            self.alloc_node(Node::Pair(head, rest))
        }
    }

    /// Variadic `+`, `-`, `*`, `/` over the tower.
    fn prim_arith(&mut self, code: u32, args: &Vec<usize>) -> (r: Result<usize, Error>)
        requires
            old(self).wf(),
            forall|i: int| 0 <= i < args@.len() ==> (#[trigger] args@[i])
                < old(self).heap@.len(),
        ensures
            final(self).wf(),
            final(self).extends(*old(self)),
            syms_kept(*old(self), *final(self)),
            r matches Ok(v) ==> v < final(self).heap@.len(),
    {
        let is_add = code == P_ADD;
        let is_mul = code == P_MUL;
        let is_sub = code == P_SUB;
        if !is_add && !is_mul && args.len() == 0 {
            return Err(Error::InvalidNumArgs(prim_name(code)));
        }
        let mut acc: Number = if is_mul {
            Number::Int(1)
        } else {
            Number::Int(0)
        };
        let mut start: usize = 0;
        if !is_add && !is_mul {
            if args.len() == 1 {
                // unary negation / reciprocal
                let x = self.want_num(code, args[0])?;
                if is_sub {
                    match crate::number::num_neg(x) {
                        Some(v) => {
                            return Ok(self.num_v(v));
                        },
                        None => {
                            return Err(Error::InvalidSyntax(String::from_str(
                                "arithmetic overflow",
                            )));
                        },
                    }
                }
                if crate::number::num_is_zero(&x) {
                    return Err(Error::InvalidSyntax(String::from_str("/ is undefined for 0")));
                }
                match crate::number::num_div(Number::Int(1), x) {
                    Some(v) => {
                        return Ok(self.num_v(v));
                    },
                    None => {
                        return Err(Error::InvalidSyntax(String::from_str("arithmetic overflow")));
                    },
                }
            }
            acc = self.want_num(code, args[0])?;
            start = 1;
        }
        let mut i: usize = start;
        while i < args.len()
            invariant
                self.wf(),
                self.extends(*old(self)),
                syms_kept(*old(self), *self),
                i <= args@.len(),
                number_wf(acc),
                forall|k: int| 0 <= k < args@.len() ==> (#[trigger] args@[k])
                    < old(self).heap@.len(),
            decreases args@.len() - i,
        {
            let x = match self.want_num(code, args[i]) {
                Ok(x) => x,
                Err(e) => {
                    return Err(e);
                },
            };
            let next: Option<Number> = if is_add {
                crate::number::num_add(acc, x)
            } else if is_mul {
                crate::number::num_mul(acc, x)
            } else if is_sub {
                crate::number::num_sub(acc, x)
            } else {
                if crate::number::num_is_zero(&x) {
                    return Err(Error::InvalidSyntax(String::from_str("/ is undefined for 0")));
                }
                crate::number::num_div(acc, x)
            };
            match next {
                Some(v) => {
                    acc = v;
                },
                None => {
                    return Err(Error::InvalidSyntax(String::from_str("arithmetic overflow")));
                },
            }
            i = i + 1;
        }
        Ok(self.num_v(acc))
    }

    /// Chained numeric comparison (`=`, `<`, `>`, `<=`, `>=`).
    fn prim_num_cmp(&mut self, code: u32, args: &Vec<usize>) -> (r: Result<usize, Error>)
        requires
            old(self).wf(),
            forall|i: int| 0 <= i < args@.len() ==> (#[trigger] args@[i])
                < old(self).heap@.len(),
        ensures
            final(self).wf(),
            final(self).extends(*old(self)),
            syms_kept(*old(self), *final(self)),
            r matches Ok(v) ==> v < final(self).heap@.len(),
    {
        if args.len() == 0 {
            return Err(Error::InvalidNumArgs(prim_name(code)));
        }
        let mut prev = self.want_num(code, args[0])?;
        let mut i: usize = 1;
        while i < args.len()
            invariant
                self.wf(),
                self.extends(*old(self)),
                syms_kept(*old(self), *self),
                i <= args@.len(),
                number_wf(prev),
                forall|k: int| 0 <= k < args@.len() ==> (#[trigger] args@[k])
                    < old(self).heap@.len(),
            decreases args@.len() - i,
        {
            let x = match self.want_num(code, args[i]) {
                Ok(x) => x,
                Err(e) => {
                    return Err(e);
                },
            };
            let c = crate::number::num_cmp(&prev, &x);
            let ok = if code == P_NUM_EQ {
                c == 0
            } else if code == P_LT {
                c == -1
            } else if code == P_GT {
                c == 1
            } else if code == P_LE {
                c != 1
            } else {
                c != -1
            };
            if !ok {
                return Ok(self.bool_v(false));
            }
            prev = x;
            i = i + 1;
        }
        Ok(self.bool_v(true))
    }

    /// Chained character comparison, optionally case-insensitive.
    fn prim_char_cmp(&mut self, code: u32, args: &Vec<usize>, ci: bool, kind: i8) -> (r: Result<
        usize,
        Error,
    >)
        requires
            old(self).wf(),
            forall|i: int| 0 <= i < args@.len() ==> (#[trigger] args@[i])
                < old(self).heap@.len(),
        ensures
            final(self).wf(),
            final(self).extends(*old(self)),
            syms_kept(*old(self), *final(self)),
            r matches Ok(v) ==> v < final(self).heap@.len(),
    {
        if args.len() == 0 {
            return Err(Error::InvalidNumArgs(prim_name(code)));
        }
        let c0 = self.want_char(code, args[0])?;
        let mut prev: char = if ci {
            crate::chars::char_downcase(c0)
        } else {
            c0
        };
        let mut i: usize = 1;
        while i < args.len()
            invariant
                self.wf(),
                self.extends(*old(self)),
                syms_kept(*old(self), *self),
                i <= args@.len(),
                forall|k: int| 0 <= k < args@.len() ==> (#[trigger] args@[k])
                    < old(self).heap@.len(),
            decreases args@.len() - i,
        {
            let cx = match self.want_char(code, args[i]) {
                Ok(c) => c,
                Err(e) => {
                    return Err(e);
                },
            };
            let x: char = if ci {
                crate::chars::char_downcase(cx)
            } else {
                cx
            };
            let pa = prev as u32;
            let xa = x as u32;
            let c: i8 = if pa < xa {
                -1
            } else if pa == xa {
                0
            } else {
                1
            };
            let ok = if kind == 0 {
                c == 0
            } else if kind == -1 {
                c == -1
            } else if kind == 1 {
                c == 1
            } else if kind == -2 {
                c != 1
            } else {
                c != -1
            };
            if !ok {
                return Ok(self.bool_v(false));
            }
            prev = x;
            i = i + 1;
        }
        Ok(self.bool_v(true))
    }

    /// Chained string comparison, optionally case-insensitive.
    fn prim_str_cmp(&mut self, code: u32, args: &Vec<usize>, ci: bool, kind: i8) -> (r: Result<
        usize,
        Error,
    >)
        requires
            old(self).wf(),
            forall|i: int| 0 <= i < args@.len() ==> (#[trigger] args@[i])
                < old(self).heap@.len(),
        ensures
            final(self).wf(),
            final(self).extends(*old(self)),
            syms_kept(*old(self), *final(self)),
            r matches Ok(v) ==> v < final(self).heap@.len(),
    {
        if args.len() == 0 {
            return Err(Error::InvalidNumArgs(prim_name(code)));
        }
        let s0 = self.want_chars(code, args[0])?;
        let mut prev: Vec<char> = if ci {
            fold_lower(&s0)
        } else {
            s0
        };
        let mut i: usize = 1;
        while i < args.len()
            invariant
                self.wf(),
                self.extends(*old(self)),
                syms_kept(*old(self), *self),
                i <= args@.len(),
                forall|k: int| 0 <= k < args@.len() ==> (#[trigger] args@[k])
                    < old(self).heap@.len(),
            decreases args@.len() - i,
        {
            let sx = match self.want_chars(code, args[i]) {
                Ok(c) => c,
                Err(e) => {
                    return Err(e);
                },
            };
            let x: Vec<char> = if ci {
                fold_lower(&sx)
            } else {
                sx
            };
            let c = chars_cmp(&prev, &x);
            let ok = if kind == 0 {
                c == 0
            } else if kind == -1 {
                c == -1
            } else if kind == 1 {
                c == 1
            } else if kind == -2 {
                c != 1
            } else {
                c != -1
            };
            if !ok {
                return Ok(self.bool_v(false));
            }
            prev = x;
            i = i + 1;
        }
        Ok(self.bool_v(true))
    }

    /// Resolves optional `start`/`end` arguments against a length, with the
    /// string index errors.
    fn str_range(&self, code: u32, args: &Vec<usize>, from_arg: usize, len: usize) -> (r: Result<
        (usize, usize),
        Error,
    >)
        requires
            self.wf(),
            from_arg <= 4,
            forall|i: int| 0 <= i < args@.len() ==> (#[trigger] args@[i]) < self.heap@.len(),
        ensures
            r matches Ok(p) ==> p.0 <= p.1 <= len,
    {
        if len as u64 > 0x7fff_ffff_ffff_ffffu64 {
            return Err(Error::InvalidSyntax(String::from_str("string length out of range")));
        }
        let maxi: usize = if len == 0 {
            0
        } else {
            len - 1
        };
        let mut a: usize = 0;
        let mut b: usize = len;
        if args.len() > from_arg {
            let ai = self.want_int(code, args[from_arg])?;
            if ai < 0 || ai > len as i64 {
                return Err(
                    Error::InvalidStringIndex(
                        if ai < 0 {
                            0
                        } else {
                            len
                        },
                        maxi,
                    ),
                );
            }
            a = ai as usize;
        }
        if args.len() > from_arg + 1 {
            let bi = self.want_int(code, args[from_arg + 1])?;
            if bi < 0 || bi > len as i64 {
                return Err(
                    Error::InvalidStringIndex(
                        if bi < 0 {
                            0
                        } else {
                            len
                        },
                        maxi,
                    ),
                );
            }
            b = bi as usize;
        }
        if a > b {
            return Err(
                Error::InvalidSyntax(String::from_str("invalid substring indices: end < start")),
            );
        }
        Ok((a, b))
    }
}

impl Vm {
    /// Applies a built-in procedure to its evaluated arguments.
    fn apply_prim(&mut self, code: u32, args: Vec<usize>) -> (r: Result<usize, Error>)
        requires
            old(self).wf(),
            forall|i: int| 0 <= i < args@.len() ==> (#[trigger] args@[i])
                < old(self).heap@.len(),
        ensures
            final(self).wf(),
            final(self).extends(*old(self)),
            syms_kept(*old(self), *final(self)),
            r matches Ok(v) ==> v < final(self).heap@.len(),
    {
        match code {
            P_CAR => {
                self.arity(code, &args, 1)?;
                self.prim_car(args[0])
            },
            P_CDR => {
                self.arity(code, &args, 1)?;
                self.prim_cdr(args[0])
            },
            P_CONS => {
                self.arity(code, &args, 2)?;
                Ok(self.alloc_node(Node::Pair(args[0], args[1])))
            },
            P_EQ | P_EQV => {
                self.arity(code, &args, 2)?;
                let b = self.eq_h(args[0], args[1]);
                Ok(self.bool_v(b))
            },
            P_EQUAL => {
                self.arity(code, &args, 2)?;
                let b = self.equal_h(args[0], args[1])?;
                Ok(self.bool_v(b))
            },
            P_NOT => {
                self.arity(code, &args, 1)?;
                let t = self.truthy(args[0]);
                Ok(self.bool_v(!t))
            },
            P_ADD | P_SUB | P_MUL | P_DIV => self.prim_arith(code, &args),
            P_NUM_EQ | P_LT | P_GT | P_LE | P_GE => self.prim_num_cmp(code, &args),
            P_QUOTIENT | P_REMAINDER | P_MODULO => {
                self.arity(code, &args, 2)?;
                let a = self.want_int(code, args[0])?;
                let b = self.want_int(code, args[1])?;
                if b == 0 {
                    return Err(
                        Error::InvalidSyntax(prim_name(code).concat(" is undefined for 0")),
                    );
                }
                if code == P_MODULO {
                    match crate::number::int_modulo(a, b) {
                        Some(m) => Ok(self.num_v(Number::Int(m))),
                        None => Err(Error::InvalidSyntax(String::from_str("arithmetic overflow"))),
                    }
                } else {
                    match crate::number::int_divmod(a, b) {
                        Some((q, rem)) => {
                            if code == P_QUOTIENT {
                                Ok(self.num_v(Number::Int(q)))
                            } else {
                                Ok(self.num_v(Number::Int(rem)))
                            }
                        },
                        None => Err(Error::InvalidSyntax(String::from_str("arithmetic overflow"))),
                    }
                }
            },
            P_ABS => {
                self.arity(code, &args, 1)?;
                let x = self.want_num(code, args[0])?;
                match crate::number::num_abs(x) {
                    Some(v) => Ok(self.num_v(v)),
                    None => Err(Error::InvalidSyntax(String::from_str("arithmetic overflow"))),
                }
            },
            P_ZERO | P_POSITIVE | P_NEGATIVE => {
                self.arity(code, &args, 1)?;
                let x = self.want_num(code, args[0])?;
                let sg = crate::number::num_sign(&x);
                let b = if code == P_ZERO {
                    sg == 0
                } else if code == P_POSITIVE {
                    sg == 1
                } else {
                    sg == -1
                };
                Ok(self.bool_v(b))
            },
            P_ODD | P_EVEN => {
                self.arity(code, &args, 1)?;
                let x = self.want_int(code, args[0])?;
                let mag: u64 = if x >= 0 {
                    x as u64
                } else {
                    (-(x as i128)) as u64
                };
                let even = mag % 2 == 0;
                Ok(self.bool_v(if code == P_EVEN {
                    even
                } else {
                    !even
                }))
            },
            P_IS_NUMBER | P_IS_BOOLEAN | P_IS_SYMBOL | P_IS_STRING | P_IS_CHAR | P_IS_NULL
                | P_IS_PROCEDURE | P_IS_PAIR | P_IS_VECTOR => {
                self.arity(code, &args, 1)?;
                let h = args[0];
                let b: bool = match &self.heap[h] {
                    Node::Num(_) => code == P_IS_NUMBER,
                    Node::Bool(_) => code == P_IS_BOOLEAN,
                    Node::Sym(_) => code == P_IS_SYMBOL,
                    Node::Strg(_) => code == P_IS_STRING,
                    Node::Ch(_) => code == P_IS_CHAR,
                    Node::Nil => code == P_IS_NULL,
                    Node::Prim(_) => code == P_IS_PROCEDURE,
                    Node::Closure(_) => code == P_IS_PROCEDURE,
                    Node::Pair(_, _) => code == P_IS_PAIR,
                    Node::Vect(_) => code == P_IS_VECTOR,
                    _ => false,
                };
                Ok(self.bool_v(b))
            },
            P_IS_LIST => {
                self.arity(code, &args, 1)?;
                let b = self.is_proper_list(args[0]);
                Ok(self.bool_v(b))
            },
            P_INT_TO_CHAR => {
                self.arity(code, &args, 1)?;
                let x = self.want_int(code, args[0])?;
                let u: u32 = #[verifier::truncate] (x as u32);
                match crate::chars::char_from_u32(u) {
                    Some(c) => Ok(self.alloc_node(Node::Ch(c))),
                    None => {
                        let d = crate::print::u128_to_chars(u as u128);
                        let msg = chars_to_string(&d).concat(" is not valid unicode");
                        Err(Error::InvalidSyntax(msg))
                    },
                }
            },
            P_CHAR_TO_INT => {
                self.arity(code, &args, 1)?;
                let c = self.want_char(code, args[0])?;
                Ok(self.num_v(Number::Int((c as u32) as i64)))
            },
            P_CH_ALPHA | P_CH_NUMERIC | P_CH_SPACE | P_CH_UPPER | P_CH_LOWER => {
                self.arity(code, &args, 1)?;
                let c = self.want_char(code, args[0])?;
                let b = if code == P_CH_ALPHA {
                    crate::chars::char_is_alphabetic(c)
                } else if code == P_CH_NUMERIC {
                    crate::chars::char_is_numeric(c)
                } else if code == P_CH_SPACE {
                    crate::chars::char_is_whitespace(c)
                } else if code == P_CH_UPPER {
                    crate::chars::char_is_uppercase(c)
                } else {
                    crate::chars::char_is_lowercase(c)
                };
                Ok(self.bool_v(b))
            },
            P_CH_EQ => self.prim_char_cmp(code, &args, false, 0),
            P_CH_LT => self.prim_char_cmp(code, &args, false, -1),
            P_CH_GT => self.prim_char_cmp(code, &args, false, 1),
            P_CH_LE => self.prim_char_cmp(code, &args, false, -2),
            P_CH_GE => self.prim_char_cmp(code, &args, false, 2),
            P_CHCI_EQ => self.prim_char_cmp(code, &args, true, 0),
            P_CHCI_LT => self.prim_char_cmp(code, &args, true, -1),
            P_CHCI_GT => self.prim_char_cmp(code, &args, true, 1),
            P_CHCI_LE => self.prim_char_cmp(code, &args, true, -2),
            P_CHCI_GE => self.prim_char_cmp(code, &args, true, 2),
            P_CH_UPCASE | P_CH_DOWNCASE | P_CH_FOLDCASE => {
                self.arity(code, &args, 1)?;
                let c = self.want_char(code, args[0])?;
                let m = if code == P_CH_UPCASE {
                    crate::chars::char_upcase(c)
                } else {
                    crate::chars::char_downcase(c)
                };
                Ok(self.alloc_node(Node::Ch(m)))
            },
            P_DIGIT_VALUE => {
                self.arity(code, &args, 1)?;
                let c = self.want_char(code, args[0])?;
                let u = c as u32;
                if u >= 48 && u <= 57 {
                    Ok(self.num_v(Number::Int((u - 48) as i64)))
                } else {
                    Ok(self.bool_v(false))
                }
            },
            P_MAKE_STRING => {
                if args.len() < 1 || args.len() > 2 {
                    return Err(Error::InvalidNumArgs(prim_name(code)));
                }
                let k = self.want_int(code, args[0])?;
                if k < 0 || k > MAX_SEQ as i64 {
                    return Err(Error::InvalidSyntax(String::from_str(
                        "string length out of range",
                    )));
                }
                let fill: char = if args.len() == 2 {
                    self.want_char(code, args[1])?
                } else {
                    '\0'
                };
                let mut v: Vec<char> = Vec::new();
                let mut i: usize = 0;
                while i < k as usize
                    invariant
                        i <= k as usize,
                    decreases k as usize - i,
                {
                    v.push(fill);
                    i = i + 1;
                }
                Ok(self.alloc_node(Node::Strg(v)))
            },
            P_STRING => {
                let mut v: Vec<char> = Vec::new();
                let mut i: usize = 0;
                while i < args.len()
                    invariant
                        self.wf(),
                        self.extends(*old(self)),
                        syms_kept(*old(self), *self),
                        i <= args@.len(),
                        forall|m: int| 0 <= m < args@.len() ==> (#[trigger] args@[m])
                            < self.heap@.len(),
                    decreases args@.len() - i,
                {
                    match self.want_char(code, args[i]) {
                        Ok(c) => {
                            v.push(c);
                        },
                        Err(e) => {
                            return Err(e);
                        },
                    }
                    i = i + 1;
                }
                Ok(self.alloc_node(Node::Strg(v)))
            },
            P_STR_LEN => {
                self.arity(code, &args, 1)?;
                let v = self.want_chars(code, args[0])?;
                if v.len() as u64 > 0x7fff_ffff_ffff_ffffu64 {
                    return Err(Error::InvalidSyntax(String::from_str(
                        "string length out of range",
                    )));
                }
                Ok(self.num_v(Number::Int(v.len() as i64)))
            },
            P_STR_REF => {
                self.arity(code, &args, 2)?;
                let v = self.want_chars(code, args[0])?;
                let k = self.want_int(code, args[1])?;
                let maxi: usize = if v.len() == 0 {
                    0
                } else {
                    v.len() - 1
                };
                if k < 0 || k >= v.len() as i64 {
                    return Err(
                        Error::InvalidStringIndex(
                            if k < 0 {
                                0
                            } else {
                                #[verifier::truncate] (k as usize)
                            },
                            maxi,
                        ),
                    );
                }
                Ok(self.alloc_node(Node::Ch(v[k as usize])))
            },
            P_STR_SET => {
                self.arity(code, &args, 3)?;
                let mut v = self.want_chars(code, args[0])?;
                let k = self.want_int(code, args[1])?;
                let c = self.want_char(code, args[2])?;
                let maxi: usize = if v.len() == 0 {
                    0
                } else {
                    v.len() - 1
                };
                if k < 0 || k >= v.len() as i64 {
                    return Err(
                        Error::InvalidStringIndex(
                            if k < 0 {
                                0
                            } else {
                                #[verifier::truncate] (k as usize)
                            },
                            maxi,
                        ),
                    );
                }
                v.set(k as usize, c);
                self.set_node(args[0], Node::Strg(v));
                Ok(self.alloc_node(Node::Void))
            },
            P_STR_APPEND => {
                let mut out: Vec<char> = Vec::new();
                let mut i: usize = 0;
                while i < args.len()
                    invariant
                        self.wf(),
                        self.extends(*old(self)),
                        syms_kept(*old(self), *self),
                        i <= args@.len(),
                        forall|m: int| 0 <= m < args@.len() ==> (#[trigger] args@[m])
                            < self.heap@.len(),
                    decreases args@.len() - i,
                {
                    let v = match self.want_chars(code, args[i]) {
                        Ok(v) => v,
                        Err(e) => {
                            return Err(e);
                        },
                    };
                    let mut j: usize = 0;
                    while j < v.len()
                        invariant
                            j <= v@.len(),
                        decreases v@.len() - j,
                    {
                        out.push(v[j]);
                        j = j + 1;
                    }
                    i = i + 1;
                }
                Ok(self.alloc_node(Node::Strg(out)))
            },
            P_STR_EQ => self.prim_str_cmp(code, &args, false, 0),
            P_STR_LT => self.prim_str_cmp(code, &args, false, -1),
            P_STR_GT => self.prim_str_cmp(code, &args, false, 1),
            P_STR_LE => self.prim_str_cmp(code, &args, false, -2),
            P_STR_GE => self.prim_str_cmp(code, &args, false, 2),
            P_STRCI_EQ => self.prim_str_cmp(code, &args, true, 0),
            P_STRCI_LT => self.prim_str_cmp(code, &args, true, -1),
            P_STRCI_GT => self.prim_str_cmp(code, &args, true, 1),
            P_STRCI_LE => self.prim_str_cmp(code, &args, true, -2),
            P_STRCI_GE => self.prim_str_cmp(code, &args, true, 2),
            P_STR_UPCASE | P_STR_DOWNCASE | P_STR_FOLDCASE => {
                self.arity(code, &args, 1)?;
                let v = self.want_chars(code, args[0])?;
                let m = if code == P_STR_UPCASE {
                    fold_upper(&v)
                } else {
                    fold_lower(&v)
                };
                Ok(self.alloc_node(Node::Strg(m)))
            },
            P_SUBSTRING | P_STR_COPY => {
                if code == P_SUBSTRING {
                    self.arity(code, &args, 3)?;
                } else if args.len() < 1 || args.len() > 3 {
                    return Err(Error::InvalidNumArgs(prim_name(code)));
                }
                let v = self.want_chars(code, args[0])?;
                let (a, b) = self.str_range(code, &args, 1, v.len())?;
                let mut out: Vec<char> = Vec::new();
                let mut i: usize = a;
                while i < b
                    invariant
                        a <= i <= b,
                        b <= v@.len(),
                    decreases b - i,
                {
                    out.push(v[i]);
                    i = i + 1;
                }
                Ok(self.alloc_node(Node::Strg(out)))
            },
            P_STR_TO_LIST => {
                if args.len() < 1 || args.len() > 3 {
                    return Err(Error::InvalidNumArgs(prim_name(code)));
                }
                let v = self.want_chars(code, args[0])?;
                let (a, b) = self.str_range(code, &args, 1, v.len())?;
                let mut hs: Vec<usize> = Vec::new();
                let mut i: usize = a;
                while i < b
                    invariant
                        self.wf(),
                        self.extends(*old(self)),
                        syms_kept(*old(self), *self),
                        a <= i <= b,
                        b <= v@.len(),
                        forall|m: int| 0 <= m < hs@.len() ==> (#[trigger] hs@[m])
                            < self.heap@.len(),
                    decreases b - i,
                {
                    let ghost pre = *self;
                    let ch = self.alloc_node(Node::Ch(v[i]));
                    proof {
                        assert forall|m: int|
                            0 <= m < hs@.len() implies (#[trigger] hs@[m]) < self.heap@.len() by {
                            assert(hs@[m] < pre.heap@.len());
                        }
                    }
                    hs.push(ch);
                    i = i + 1;
                }
                Ok(self.make_list_h(&hs, 0))
            },
            P_LIST_TO_STR => {
                self.arity(code, &args, 1)?;
                let items = self.want_list(args[0])?;
                let mut out: Vec<char> = Vec::new();
                let mut i: usize = 0;
                while i < items.len()
                    invariant
                        self.wf(),
                        self.extends(*old(self)),
                        syms_kept(*old(self), *self),
                        i <= items@.len(),
                        forall|m: int| 0 <= m < items@.len() ==> (#[trigger] items@[m])
                            < self.heap@.len(),
                    decreases items@.len() - i,
                {
                    match &self.heap[items[i]] {
                        Node::Ch(c) => {
                            out.push(*c);
                        },
                        _ => {
                            return Err(
                                Error::InvalidSyntax(
                                    String::from_str("list->string expected char but found ")
                                        .concat(self.describe(items[i]).as_str()),
                                ),
                            );
                        },
                    }
                    i = i + 1;
                }
                Ok(self.alloc_node(Node::Strg(out)))
            },
            P_STR_FILL => {
                if args.len() < 2 || args.len() > 4 {
                    return Err(Error::InvalidNumArgs(prim_name(code)));
                }
                let mut v = self.want_chars(code, args[0])?;
                let c = self.want_char(code, args[1])?;
                let (a, b) = self.str_range(code, &args, 2, v.len())?;
                let mut i: usize = a;
                while i < b
                    invariant
                        a <= i <= b,
                        b <= v@.len(),
                    decreases b - i,
                {
                    v.set(i, c);
                    i = i + 1;
                }
                self.set_node(args[0], Node::Strg(v));
                Ok(self.alloc_node(Node::Void))
            },
            P_STR_TO_SYM => {
                self.arity(code, &args, 1)?;
                let v = self.want_chars(code, args[0])?;
                let sy = self.intern(v);
                Ok(self.alloc_node(Node::Sym(sy)))
            },
            P_SYM_TO_STR => {
                self.arity(code, &args, 1)?;
                match self.get_sym(args[0]) {
                    Some(sy) => {
                        let t = self.sym_text(sy);
                        Ok(self.alloc_node(Node::Strg(t)))
                    },
                    None => Err(self.err_args(code, "symbol", args[0])),
                }
            },
            P_SYM_EQ => {
                if args.len() == 0 {
                    return Err(Error::InvalidNumArgs(prim_name(code)));
                }
                let s0 = match self.get_sym(args[0]) {
                    Some(sy) => sy,
                    None => {
                        return Err(self.err_args(code, "symbol", args[0]));
                    },
                };
                let mut i: usize = 1;
                while i < args.len()
                    invariant
                        self.wf(),
                        self.extends(*old(self)),
                        syms_kept(*old(self), *self),
                        i <= args@.len(),
                        forall|m: int| 0 <= m < args@.len() ==> (#[trigger] args@[m])
                            < self.heap@.len(),
                    decreases args@.len() - i,
                {
                    match self.get_sym(args[i]) {
                        Some(sy) => {
                            if sy != s0 {
                                return Ok(self.bool_v(false));
                            }
                        },
                        None => {
                            return Err(self.err_args(code, "symbol", args[i]));
                        },
                    }
                    i = i + 1;
                }
                Ok(self.bool_v(true))
            },
            P_VECTOR => {
                let hs = copy_usizes(&args);
                Ok(self.alloc_node(Node::Vect(hs)))
            },
            P_MAKE_VECTOR => {
                if args.len() < 1 || args.len() > 2 {
                    return Err(Error::InvalidNumArgs(prim_name(code)));
                }
                let k = self.want_int(code, args[0])?;
                if k < 0 || k > MAX_SEQ as i64 {
                    return Err(Error::InvalidSyntax(String::from_str(
                        "vector length out of range",
                    )));
                }
                let fill: usize = if args.len() == 2 {
                    args[1]
                } else {
                    self.num_v(Number::Int(0))
                };
                let mut hs: Vec<usize> = Vec::new();
                let mut i: usize = 0;
                while i < k as usize
                    invariant
                        self.wf(),
                        self.extends(*old(self)),
                        syms_kept(*old(self), *self),
                        i <= k as usize,
                        fill < self.heap@.len(),
                        forall|m: int| 0 <= m < hs@.len() ==> (#[trigger] hs@[m])
                            < self.heap@.len(),
                    decreases k as usize - i,
                {
                    hs.push(fill);
                    i = i + 1;
                }
                Ok(self.alloc_node(Node::Vect(hs)))
            },
            P_VEC_LEN => {
                self.arity(code, &args, 1)?;
                let hs = self.want_vect(args[0])?;
                if hs.len() as u64 > 0x7fff_ffff_ffff_ffffu64 {
                    return Err(Error::InvalidSyntax(String::from_str(
                        "vector length out of range",
                    )));
                }
                Ok(self.num_v(Number::Int(hs.len() as i64)))
            },
            P_VEC_REF => {
                self.arity(code, &args, 2)?;
                let hs = self.want_vect(args[0])?;
                let k = self.want_int(code, args[1])?;
                if k < 0 || k >= hs.len() as i64 {
                    return Err(
                        Error::InvalidVectorIndex(
                            if k < 0 {
                                0
                            } else {
                                #[verifier::truncate] (k as usize)
                            },
                            hs.len(),
                        ),
                    );
                }
                Ok(hs[k as usize])
            },
            P_VEC_SET => {
                self.arity(code, &args, 3)?;
                let mut hs = self.want_vect(args[0])?;
                let k = self.want_int(code, args[1])?;
                if k < 0 || k >= hs.len() as i64 {
                    return Err(
                        Error::InvalidVectorIndex(
                            if k < 0 {
                                0
                            } else {
                                #[verifier::truncate] (k as usize)
                            },
                            hs.len(),
                        ),
                    );
                }
                hs.set(k as usize, args[2]);
                self.set_node(args[0], Node::Vect(hs));
                Ok(self.alloc_node(Node::Void))
            },
            P_VEC_FILL => {
                self.arity(code, &args, 2)?;
                let mut hs = self.want_vect(args[0])?;
                let mut i: usize = 0;
                while i < hs.len()
                    invariant
                        self.wf(),
                        self.extends(*old(self)),
                        syms_kept(*old(self), *self),
                        i <= hs@.len(),
                        args@.len() == 2,
                        forall|m: int| 0 <= m < args@.len() ==> (#[trigger] args@[m])
                            < self.heap@.len(),
                        forall|m: int| 0 <= m < hs@.len() ==> (#[trigger] hs@[m])
                            < self.heap@.len(),
                    decreases hs@.len() - i,
                {
                    hs.set(i, args[1]);
                    i = i + 1;
                }
                self.set_node(args[0], Node::Vect(hs));
                Ok(self.alloc_node(Node::Void))
            },
            P_VEC_TO_LIST => {
                self.arity(code, &args, 1)?;
                let hs = self.want_vect(args[0])?;
                Ok(self.make_list_h(&hs, 0))
            },
            P_LIST_TO_VEC => {
                self.arity(code, &args, 1)?;
                let h = args[0];
                if self.is_nil_h(h) {
                    let hs: Vec<usize> = Vec::new();
                    return Ok(self.alloc_node(Node::Vect(hs)));
                }
                match self.get_pair(h) {
                    Some(_) => {},
                    None => {
                        return Err(Error::ExpectedPairButFound(self.describe(h)));
                    },
                }
                let (items, tail) = match self.spine(h) {
                    Some(p) => p,
                    None => {
                        return Err(Error::ResourceExhausted);
                    },
                };
                if !self.is_nil_h(tail) {
                    return Err(Error::ExpectedPairButFound(self.describe(tail)));
                }
                Ok(self.alloc_node(Node::Vect(items)))
            },
            P_APPEND => {
                if args.len() == 0 {
                    return Ok(self.alloc_node(Node::Nil));
                }
                let nargs: usize = args.len();
                let mut all: Vec<usize> = Vec::new();
                let mut i: usize = 0;
                while i + 1 < nargs
                    invariant
                        self.wf(),
                        self.extends(*old(self)),
                        syms_kept(*old(self), *self),
                        nargs == args@.len(),
                        i < args@.len(),
                        forall|m: int| 0 <= m < args@.len() ==> (#[trigger] args@[m])
                            < self.heap@.len(),
                        forall|m: int| 0 <= m < all@.len() ==> (#[trigger] all@[m])
                            < self.heap@.len(),
                    decreases args@.len() - i,
                {
                    let items = match self.want_list(args[i]) {
                        Ok(v) => v,
                        Err(e) => {
                            return Err(e);
                        },
                    };
                    let mut j: usize = 0;
                    while j < items.len()
                        invariant
                            self.wf(),
                            self.extends(*old(self)),
                            syms_kept(*old(self), *self),
                            j <= items@.len(),
                            forall|m: int| 0 <= m < items@.len() ==> (#[trigger] items@[m])
                                < self.heap@.len(),
                            forall|m: int| 0 <= m < all@.len() ==> (#[trigger] all@[m])
                                < self.heap@.len(),
                        decreases items@.len() - j,
                    {
                        all.push(items[j]);
                        j = j + 1;
                    }
                    i = i + 1;
                }
                let tail = args[args.len() - 1];
                Ok(self.make_list_tail(&all, 0, tail))
            },
            P_REVERSE => {
                self.arity(code, &args, 1)?;
                let items = self.want_list(args[0])?;
                let mut rev: Vec<usize> = Vec::new();
                let mut i: usize = items.len();
                while i > 0
                    invariant
                        self.wf(),
                        self.extends(*old(self)),
                        syms_kept(*old(self), *self),
                        i <= items@.len(),
                        forall|m: int| 0 <= m < items@.len() ==> (#[trigger] items@[m])
                            < self.heap@.len(),
                        forall|m: int| 0 <= m < rev@.len() ==> (#[trigger] rev@[m])
                            < self.heap@.len(),
                    decreases i,
                {
                    i = i - 1;
                    rev.push(items[i]);
                }
                Ok(self.make_list_h(&rev, 0))
            },
            P_LIST_TAIL | P_LIST_REF => {
                self.arity(code, &args, 2)?;
                let k = self.want_int(code, args[1])?;
                if k < 0 {
                    let d = crate::print::u128_to_chars(0);
                    return Err(
                        Error::InvalidSyntax(
                            chars_to_string(&d).concat(" is out of range for ").concat(
                                self.describe(args[0]).as_str(),
                            ),
                        ),
                    );
                }
                let mut cur: usize = args[0];
                let mut n: i64 = 0;
                while n < k
                    invariant
                        self.wf(),
                        self.extends(*old(self)),
                        syms_kept(*old(self), *self),
                        cur < self.heap@.len(),
                        args@.len() == 2,
                        forall|m: int| 0 <= m < args@.len() ==> (#[trigger] args@[m])
                            < self.heap@.len(),
                        0 <= n <= k,
                    decreases k - n,
                {
                    match self.get_pair(cur) {
                        Some((_, d)) => {
                            cur = d;
                        },
                        None => {
                            let kd = crate::print::u128_to_chars(k as u128);
                            return Err(
                                Error::InvalidSyntax(
                                    chars_to_string(&kd).concat(" is out of range for ").concat(
                                        self.describe(args[0]).as_str(),
                                    ),
                                ),
                            );
                        },
                    }
                    n = n + 1;
                }
                if code == P_LIST_TAIL {
                    Ok(cur)
                } else {
                    match self.get_pair(cur) {
                        Some((a, _)) => Ok(a),
                        None => {
                            let kd = crate::print::u128_to_chars(k as u128);
                            Err(
                                Error::InvalidSyntax(
                                    chars_to_string(&kd).concat(" is out of range for ").concat(
                                        self.describe(args[0]).as_str(),
                                    ),
                                ),
                            )
                        },
                    }
                }
            },
            P_ASSOC | P_ASSQ | P_ASSV => {
                self.arity(code, &args, 2)?;
                let entries = self.want_list(args[1])?;
                let mut i: usize = 0;
                while i < entries.len()
                    invariant
                        self.wf(),
                        self.extends(*old(self)),
                        syms_kept(*old(self), *self),
                        i <= entries@.len(),
                        args@.len() == 2,
                        forall|m: int| 0 <= m < args@.len() ==> (#[trigger] args@[m])
                            < self.heap@.len(),
                        forall|m: int| 0 <= m < entries@.len() ==> (#[trigger] entries@[m])
                            < self.heap@.len(),
                    decreases entries@.len() - i,
                {
                    match self.get_pair(entries[i]) {
                        Some((key, _)) => {
                            let hit = if code == P_ASSOC {
                                match self.equal_h(args[0], key) {
                                    Ok(b) => b,
                                    Err(e) => {
                                        return Err(e);
                                    },
                                }
                            } else {
                                self.eq_h(args[0], key)
                            };
                            if hit {
                                return Ok(entries[i]);
                            }
                        },
                        None => {
                            return Err(Error::ExpectedPairButFound(self.describe(entries[i])));
                        },
                    }
                    i = i + 1;
                }
                Ok(self.bool_v(false))
            },
            P_SET_CAR | P_SET_CDR => {
                self.arity(code, &args, 2)?;
                match self.get_pair(args[0]) {
                    Some((a, d)) => {
                        if code == P_SET_CAR {
                            self.set_node(args[0], Node::Pair(args[1], d));
                        } else {
                            self.set_node(args[0], Node::Pair(a, args[1]));
                        }
                        Ok(self.alloc_node(Node::Void))
                    },
                    None => Err(Error::ExpectedPairButFound(self.describe(args[0]))),
                }
            },
            P_TO_INEXACT => {
                self.arity(code, &args, 1)?;
                let x = self.want_num(code, args[0])?;
                let v = crate::number::num_exact_to_inexact(x);
                Ok(self.num_v(v))
            },
            P_TO_EXACT => {
                self.arity(code, &args, 1)?;
                let x = self.want_num(code, args[0])?;
                match crate::number::num_inexact_to_exact(x) {
                    Some(v) => Ok(self.num_v(v)),
                    None => Err(Error::InvalidSyntax(String::from_str(
                        "no exact representation",
                    ))),
                }
            },
            _ => Err(Error::InvalidProcedure(prim_name(code))),
        }
    }

    /// Evaluates one expression against the machine's global state,
    /// returning the result as a tree.  Literals evaluate to themselves; a
    /// bare `()` is refused; a `(quote <datum>)` form yields a tree
    /// structurally equal to the datum.
    pub fn eval(&mut self, expr: &Cell) -> (r: Result<Cell, Error>)
        requires
            old(self).wf(),
            cell_wf(*expr),
        ensures
            final(self).wf(),
            old(self).ready() ==> final(self).ready(),
            (*expr) matches Cell::Number(n) ==> r == Ok::<Cell, Error>(Cell::Number(n)),
            (*expr) matches Cell::Boolean(b) ==> r == Ok::<Cell, Error>(Cell::Boolean(b)),
            (*expr) matches Cell::Char(c) ==> r == Ok::<Cell, Error>(Cell::Char(c)),
            (*expr is Nil) ==> r == Err::<Cell, Error>(Error::UnquotedNil),
            (old(self).ready() && is_cell_quote(*expr) && crate::cell::cell_is_data(*expr)) ==> (
            r matches Ok(c) ==> crate::cell::cell_eq_spec(c, cell_quote_datum(*expr))),
            (old(self).ready() && is_cell_quote(*expr) && crate::cell::cell_is_data(*expr)
                && cell_atom(cell_quote_datum(*expr))) ==> r is Ok,
            (old(self).ready() && is_cell_quote(*expr) && crate::cell::cell_is_data(*expr)
                && cell_height(cell_quote_datum(*expr)) <= EXTRACT_DEPTH && cell_size(
                cell_quote_datum(*expr),
            ) < SPINE_BUDGET) ==> r is Ok,
    {
        match expr {
            Cell::Number(n) => {
                return Ok(Cell::Number(*n));
            },
            Cell::Boolean(b) => {
                return Ok(Cell::Boolean(*b));
            },
            Cell::Char(c) => {
                return Ok(Cell::Char(*c));
            },
            Cell::Nil => {
                return Err(Error::UnquotedNil);
            },
            _ => {},
        }
        let h = self.intern_cell(expr);
        let ghost m1 = *self;
        proof {
            if old(self).ready() {
                assert(m1.ready());
            }
            if old(self).ready() && is_cell_quote(*expr) && crate::cell::cell_is_data(*expr) {
                let opb = (*expr)->Cons_0;
                let restb = (*expr)->Cons_1;
                let x = m1.heap@[h as int]->Pair_0;
                let y = m1.heap@[h as int]->Pair_1;
                assert(represents(&m1, x, *opb));
                assert(represents(&m1, y, *restb));
                let sid = m1.heap@[x as int]->Sym_0;
                assert(m1.syms@[sid as int] matches Some(t) && t@ == "quote"@);
                assert(sid == S_QUOTE) by {
                    if sid != S_QUOTE {
                        assert(m1.syms@[S_QUOTE as int] matches Some(q) && q@ == "quote"@);
                        if S_QUOTE < sid {
                            assert(m1.syms@[S_QUOTE as int] matches Some(t1) ==> (
                            m1.syms@[sid as int] matches Some(t2) ==> t1@ != t2@));
                        } else {
                            assert(m1.syms@[sid as int] matches Some(t1) ==> (
                            m1.syms@[S_QUOTE as int] matches Some(t2) ==> t1@ != t2@));
                        }
                    }
                };
                assert(is_quote_form(&m1, h));
                assert(represents(&m1, quote_datum(&m1, h), cell_quote_datum(*expr)));
            }
        }
        let v = match self.eval_h(h, 0, EVAL_FUEL) {
            Ok(v) => v,
            Err(e) => {
                self.collect();
                proof {
                    if old(self).ready() {
                        assert(final(self).ready());
                    }
                }
                return Err(e);
            },
        };
        let r = self.extract(v, EXTRACT_DEPTH);
        proof {
            if old(self).ready() && is_cell_quote(*expr) && crate::cell::cell_is_data(*expr) {
                assert(*self == m1);
                assert(v == quote_datum(&m1, h));
                let dat = cell_quote_datum(*expr);
                if cell_atom(dat) || (cell_height(dat) <= EXTRACT_DEPTH && cell_size(dat)
                    < SPINE_BUDGET) {
                    assert(represents(self, v, dat));
                    assert(r is Ok);
                }
                match &r {
                    Ok(c) => {
                        let dat = cell_quote_datum(*expr);
                        assert(represents(&m1, v, *c));
                        assert(crate::cell::cell_is_data(*((*expr)->Cons_1)));
                        assert(crate::cell::cell_is_data(dat));
                        lemma_represents_functional(&m1, v, dat, *c);
                        crate::cell::lemma_cell_eq_sym(dat, *c);
                    },
                    _ => {},
                }
            }
        }
        let ghost m2 = *self;
        self.collect();
        proof {
            if old(self).ready() {
                assert(m2.ready());
                assert(final(self).ready());
            }
        }
        r
    }
}

impl Vm {
    /// Reclaims heap nodes, interned symbols and frame bindings that are no
    /// longer reachable from the global frame.  Collection is non-moving:
    /// live handles keep their place and content, so identity survives,
    /// and the reserved special-form names always stay interned.
    pub fn collect(&mut self)
        requires
            old(self).wf(),
        ensures
            final(self).wf(),
            final(self).heap@.len() == old(self).heap@.len(),
            final(self).frames@.len() == old(self).frames@.len(),
            final(self).syms@.len() == old(self).syms@.len(),
            forall|i: int|
                0 <= i < old(self).heap@.len() ==> (final(self).heap@[i] == old(self).heap@[i] || (
                #[trigger] final(self).heap@[i]) is Free),
            forall|i: int|
                0 <= i < old(self).syms@.len() ==> (final(self).syms@[i] == old(self).syms@[i] || (
                #[trigger] final(self).syms@[i]) is None),
            forall|i: int|
                0 <= i <= SYM_ELSE as int && i < old(self).syms@.len() ==> final(self).syms@[i]
                    == old(self).syms@[i],
            forall|i: int|
                0 <= i < old(self).frames@.len() ==> ((#[trigger] final(self).frames@[i]) == old(
                    self,
                ).frames@[i] || (final(self).frames@[i].parent == old(self).frames@[i].parent
                    && final(self).frames@[i].binds@.len() == 0)),
            final(self).frames@[0].binds == old(self).frames@[0].binds,
            forall|b: int|
                0 <= b < old(self).frames@[0].binds@.len() ==> final(self).heap@[(
                #[trigger] old(self).frames@[0].binds@[b]).1 as int] == old(self).heap@[old(
                    self,
                ).frames@[0].binds@[b].1 as int],
            forall|b: int|
                0 <= b < old(self).frames@[0].binds@.len() ==> final(self).syms@[(
                #[trigger] old(self).frames@[0].binds@[b]).0 as int] == old(self).syms@[old(
                    self,
                ).frames@[0].binds@[b].0 as int],
            forall|b: int, c: Cell|
                0 <= b < old(self).frames@[0].binds@.len() && #[trigger] represents(
                    &*old(self),
                    old(self).frames@[0].binds@[b].1,
                    c,
                ) ==> represents(&*final(self), old(self).frames@[0].binds@[b].1, c),
    {
        let hl: usize = self.heap.len();
        let fl: usize = self.frames.len();
        let sl: usize = self.syms.len();
        let mut hmark: Vec<bool> = Vec::new();
        let mut i: usize = 0;
        while i < hl
            invariant
                hmark@.len() == i,
                i <= hl,
                forall|m: int| 0 <= m < i ==> !(#[trigger] hmark@[m]),
            decreases hl - i,
        {
            hmark.push(false);
            i = i + 1;
        }
        let mut fmark: Vec<bool> = Vec::new();
        let mut j: usize = 0;
        while j < fl
            invariant
                fmark@.len() == j,
                j <= fl,
            decreases fl - j,
        {
            fmark.push(false);
            j = j + 1;
        }
        let mut smark: Vec<bool> = Vec::new();
        let mut k: usize = 0;
        while k < sl
            invariant
                smark@.len() == k,
                k <= sl,
                forall|m: int| 0 <= m < k && m <= SYM_ELSE as int ==> smark@[m],
            decreases sl - k,
        {
            // the reserved special-form names always stay interned
            smark.push(k <= SYM_ELSE);
            k = k + 1;
        }
        let mut fstack: Vec<usize> = Vec::new();
        let mut hstack: Vec<usize> = Vec::new();
        fstack.push(0);
        if fl > 0 {
            fmark.set(0, true);
        }
        let ghost mut done0: bool = false;
        proof {
            assert(fstack@[0] == 0);
        }
        // each frame and node is pushed at most once, so this budget is
        // never exhausted; if it were, collection safely does nothing
        let mut budget: u128 = (hl as u128) + (fl as u128) + 2;
        loop
            invariant
                self.wf(),
                *self == *old(self),
                hl == self.heap@.len(),
                fl == self.frames@.len(),
                sl == self.syms@.len(),
                hmark@.len() == hl,
                fmark@.len() == fl,
                smark@.len() == sl,
                forall|m: int| 0 <= m < sl && m <= SYM_ELSE as int ==> smark@[m],
                forall|m: int| 0 <= m < fstack@.len() ==> (#[trigger] fstack@[m]) < fl,
                forall|m: int| 0 <= m < hstack@.len() ==> (#[trigger] hstack@[m]) < hl,
                fl > 0 ==> fmark@[0],
                forall|m: int| 0 <= m < hstack@.len() ==> hmark@[(#[trigger] hstack@[m]) as int],
                forall|x: int|
                    0 <= x < hl && hmark@[x] && !hstack@.contains(x as usize) ==> marked_children(
                        self,
                        hmark@,
                        smark@,
                        x,
                    ),
                !done0 ==> (exists|k: int| 0 <= k < fstack@.len() && fstack@[k] == 0),
                done0 ==> forall|b: int|
                    0 <= b < self.frames@[0].binds@.len() ==> hmark@[(
                    #[trigger] self.frames@[0].binds@[b]).1 as int] && smark@[
                    self.frames@[0].binds@[b].0 as int],
            ensures
                forall|b: int|
                    0 <= b < self.frames@[0].binds@.len() ==> hmark@[(
                    #[trigger] self.frames@[0].binds@[b]).1 as int] && smark@[
                    self.frames@[0].binds@[b].0 as int],
                forall|x: int|
                    0 <= x < hl && hmark@[x] ==> marked_children(self, hmark@, smark@, x),
            decreases budget,
        {
            if budget == 0 {
                return ;
            }
            budget = budget - 1;
            let ghost prestack = fstack@;
            match fstack.pop() {
                Some(f) => {
                    proof {
                        if !done0 && f != 0 {
                            assert(fstack@ =~= prestack.drop_last());
                            let k = choose|k: int|
                                0 <= k < prestack.len() && prestack[k] == 0;
                            assert(prestack[k] == 0);
                            assert(k < prestack.len() - 1);
                            assert(fstack@[k] == 0);
                        }
                    }
                    match self.frames[f].parent {
                        Some(p) => {
                            if !fmark[p] {
                                fmark.set(p, true);
                                fstack.push(p);
                            }
                        },
                        None => {},
                    }
                    let nb = self.frames[f].binds.len();
                    let mut b: usize = 0;
                    while b < nb
                        invariant
                            self.wf(),
                            *self == *old(self),
                            b <= nb,
                            f < fl,
                            hl == self.heap@.len(),
                            fl == self.frames@.len(),
                            sl == self.syms@.len(),
                            hmark@.len() == hl,
                            smark@.len() == sl,
                            forall|m: int| 0 <= m < sl && m <= SYM_ELSE as int ==> smark@[m],
                            nb == self.frames@[f as int].binds@.len(),
                            forall|m: int|
                                0 <= m < hstack@.len() ==> (#[trigger] hstack@[m]) < hl,
                            fl > 0 ==> fmark@[0],
                            forall|m: int|
                                0 <= m < hstack@.len() ==> hmark@[(#[trigger] hstack@[m]) as int],
                            forall|x: int|
                                0 <= x < hl && hmark@[x] && !hstack@.contains(x as usize)
                                    ==> marked_children(self, hmark@, smark@, x),
                            done0 ==> forall|m: int|
                                0 <= m < self.frames@[0].binds@.len() ==> hmark@[(
                                #[trigger] self.frames@[0].binds@[m]).1 as int] && smark@[
                                self.frames@[0].binds@[m].0 as int],
                            f == 0 ==> forall|m: int|
                                0 <= m < b ==> hmark@[(
                                #[trigger] self.frames@[0].binds@[m]).1 as int] && smark@[
                                self.frames@[0].binds@[m].0 as int],
                        decreases nb - b,
                    {
                        let (sy, val) = self.frames[f].binds[b];
                        let ghost hm0 = hmark@;
                        let ghost sm0 = smark@;
                        let ghost hs0 = hstack@;
                        smark.set(sy, true);
                        let pushed = !hmark[val];
                        if pushed {
                            hmark.set(val, true);
                            hstack.push(val);
                        }
                        proof {
                            assert forall|x: int|
                                0 <= x < hl && hmark@[x] && !hstack@.contains(
                                    x as usize,
                                ) implies marked_children(self, hmark@, smark@, x) by {
                                if hm0[x] {
                                    if hs0.contains(x as usize) {
                                        if pushed {
                                            lemma_contains_push(hs0, val, x as usize);
                                        }
                                        assert(false);
                                    }
                                    lemma_marked_children_mono(self, hm0, sm0, hmark@, smark@, x);
                                } else {
                                    assert(pushed && x == val as int);
                                    assert(hstack@[hstack@.len() - 1] == val);
                                    assert(false);
                                }
                            }
                        }
                        b = b + 1;
                    }
                    proof {
                        if f == 0 {
                            done0 = true;
                        }
                        if !done0 {
                            let k = choose|k: int|
                                0 <= k < prestack.len() && prestack[k] == 0;
                            assert(prestack[k] == 0);
                            assert(k < prestack.len() - 1);
                            assert(fstack@[k] == 0);
                        }
                    }
                },
                None => {
                    proof {
                        assert(done0);
                    }
                    let ghost prehs = hstack@;
                    let ghost hm0 = hmark@;
                    let ghost sm0 = smark@;
                    match hstack.pop() {
                        Some(h) => {
                            match &self.heap[h] {
                                Node::Sym(sy) => {
                                    smark.set(*sy, true);
                                    proof {
                                        assert forall|x: int|
                                            0 <= x < hl && hmark@[x] && !hstack@.contains(
                                                x as usize,
                                            ) implies marked_children(self, hmark@, smark@, x) by {
                                            if x == h as int {
                                                assert(smark@[self.heap@[x]->Sym_0 as int]);
                                            } else {
                                                if prehs.contains(x as usize) {
                                                    lemma_contains_drop(prehs, x as usize);
                                                    assert(false);
                                                }
                                                lemma_marked_children_mono(
                                                    self,
                                                    hm0,
                                                    sm0,
                                                    hmark@,
                                                    smark@,
                                                    x,
                                                );
                                            }
                                        }
                                    }
                                },
                                Node::Pair(a, d) => {
                                    let (a, d) = (*a, *d);
                                    let ghost mid0 = hstack@;
                                    let pa = !hmark[a];
                                    if pa {
                                        hmark.set(a, true);
                                        hstack.push(a);
                                    }
                                    let ghost mid1 = hstack@;
                                    let pd = !hmark[d];
                                    if pd {
                                        hmark.set(d, true);
                                        hstack.push(d);
                                    }
                                    proof {
                                        assert forall|x: int|
                                            0 <= x < hl && hmark@[x] && !hstack@.contains(
                                                x as usize,
                                            ) implies marked_children(self, hmark@, smark@, x) by {
                                            if x == h as int {
                                                assert(hmark@[a as int] && hmark@[d as int]);
                                            } else if hm0[x] {
                                                if prehs.contains(x as usize) {
                                                    lemma_contains_drop(prehs, x as usize);
                                                    if pa {
                                                        lemma_contains_push(mid0, a, x as usize);
                                                    }
                                                    if pd {
                                                        lemma_contains_push(mid1, d, x as usize);
                                                    }
                                                    assert(false);
                                                }
                                                lemma_marked_children_mono(
                                                    self,
                                                    hm0,
                                                    sm0,
                                                    hmark@,
                                                    smark@,
                                                    x,
                                                );
                                            } else {
                                                if pa && x == a as int {
                                                    assert(mid1[mid1.len() - 1] == a);
                                                    assert(mid1.contains(a));
                                                    if pd {
                                                        lemma_contains_push(mid1, d, a);
                                                    }
                                                    assert(false);
                                                } else {
                                                    assert(pd && x == d as int);
                                                    assert(hstack@[hstack@.len() - 1] == d);
                                                    assert(false);
                                                }
                                            }
                                        }
                                    }
                                },
                                Node::Vect(v) => {
                                    let elems = copy_usizes(v);
                                    proof {
                                        assert forall|x: int|
                                            0 <= x < hl && hmark@[x] && !hstack@.contains(
                                                x as usize,
                                            ) && x != h as int implies marked_children(
                                            self,
                                            hmark@,
                                            smark@,
                                            x,
                                        ) by {
                                            if prehs.contains(x as usize) {
                                                lemma_contains_drop(prehs, x as usize);
                                                assert(false);
                                            }
                                        }
                                    }
                                    let mut e: usize = 0;
                                    while e < elems.len()
                                        invariant
                                            e <= elems@.len(),
                                            hl == self.heap@.len(),
                                            hmark@.len() == hl,
                                            smark@.len() == sl,
                                            sl == self.syms@.len(),
                                            h < hl,
                                            self.heap@[h as int] is Vect,
                                            self.heap@[h as int]->Vect_0@ == elems@,
                                            forall|m: int|
                                                0 <= m < elems@.len() ==> (#[trigger] elems@[m])
                                                    < hl,
                                            forall|m: int|
                                                0 <= m < hstack@.len() ==> (
                                                #[trigger] hstack@[m]) < hl,
                                            forall|m: int|
                                                0 <= m < hstack@.len() ==> hmark@[(
                                                #[trigger] hstack@[m]) as int],
                                            forall|x: int|
                                                0 <= x < hl && hmark@[x] && !hstack@.contains(
                                                    x as usize,
                                                ) && x != h as int ==> marked_children(
                                                    self,
                                                    hmark@,
                                                    smark@,
                                                    x,
                                                ),
                                            forall|m: int|
                                                0 <= m < e ==> hmark@[(#[trigger] elems@[m]) as int],
                                            self.wf(),
                                            fl == self.frames@.len(),
                                            fl > 0,
                                            done0 ==> forall|m: int|
                                                0 <= m < self.frames@[0].binds@.len() ==> hmark@[(
                                                #[trigger] self.frames@[0].binds@[m]).1 as int]
                                                    && smark@[self.frames@[0].binds@[m].0 as int],
                                        decreases elems@.len() - e,
                                    {
                                        let x = elems[e];
                                        let ghost hmv = hmark@;
                                        let ghost hsv = hstack@;
                                        let pv = !hmark[x];
                                        if pv {
                                            hmark.set(x, true);
                                            hstack.push(x);
                                        }
                                        proof {
                                            assert forall|y: int|
                                                0 <= y < hl && hmark@[y] && !hstack@.contains(
                                                    y as usize,
                                                ) && y != h as int implies marked_children(
                                                self,
                                                hmark@,
                                                smark@,
                                                y,
                                            ) by {
                                                if hmv[y] {
                                                    if hsv.contains(y as usize) {
                                                        if pv {
                                                            lemma_contains_push(
                                                                hsv,
                                                                x,
                                                                y as usize,
                                                            );
                                                        }
                                                        assert(false);
                                                    }
                                                    lemma_marked_children_mono(
                                                        self,
                                                        hmv,
                                                        smark@,
                                                        hmark@,
                                                        smark@,
                                                        y,
                                                    );
                                                } else {
                                                    assert(pv && y == x as int);
                                                    assert(hstack@[hstack@.len() - 1] == x);
                                                    assert(false);
                                                }
                                            }
                                        }
                                        proof {
                                            if done0 {
                                                assert forall|m: int|
                                                    0 <= m < self.frames@[0].binds@.len() implies
                                                    hmark@[(
                                                    #[trigger] self.frames@[0].binds@[m]).1 as int]
                                                        && smark@[
                                                    self.frames@[0].binds@[m].0 as int] by {}
                                            }
                                        }
                                        e = e + 1;
                                    }
                                    proof {
                                        assert forall|x: int|
                                            0 <= x < hl && hmark@[x] && !hstack@.contains(
                                                x as usize,
                                            ) implies marked_children(self, hmark@, smark@, x) by {
                                            if x == h as int {
                                                assert(forall|m: int|
                                                    0 <= m < elems@.len() ==> hmark@[(
                                                    #[trigger] elems@[m]) as int]);
                                            }
                                        }
                                    }
                                },
                                Node::Closure(c) => {
                                    let env = c.env;
                                    let body = copy_usizes(&c.body);
                                    let params = copy_usizes(&c.params);
                                    let rest = c.rest;
                                    if !fmark[env] {
                                        fmark.set(env, true);
                                        fstack.push(env);
                                    }
                                    proof {
                                        assert forall|x: int|
                                            0 <= x < hl && hmark@[x] && !hstack@.contains(
                                                x as usize,
                                            ) implies marked_children(self, hmark@, smark@, x) by {
                                            if x != h as int {
                                                if prehs.contains(x as usize) {
                                                    lemma_contains_drop(prehs, x as usize);
                                                    assert(false);
                                                }
                                            }
                                        }
                                    }
                                    let mut e: usize = 0;
                                    while e < body.len()
                                        invariant
                                            e <= body@.len(),
                                            hl == self.heap@.len(),
                                            hmark@.len() == hl,
                                            smark@.len() == sl,
                                            sl == self.syms@.len(),
                                            forall|m: int|
                                                0 <= m < body@.len() ==> (#[trigger] body@[m])
                                                    < hl,
                                            forall|m: int|
                                                0 <= m < hstack@.len() ==> (
                                                #[trigger] hstack@[m]) < hl,
                                            forall|m: int|
                                                0 <= m < hstack@.len() ==> hmark@[(
                                                #[trigger] hstack@[m]) as int],
                                            forall|x: int|
                                                0 <= x < hl && hmark@[x] && !hstack@.contains(
                                                    x as usize,
                                                ) ==> marked_children(self, hmark@, smark@, x),
                                            self.wf(),
                                            fl == self.frames@.len(),
                                            fl > 0,
                                            done0 ==> forall|m: int|
                                                0 <= m < self.frames@[0].binds@.len() ==> hmark@[(
                                                #[trigger] self.frames@[0].binds@[m]).1 as int]
                                                    && smark@[self.frames@[0].binds@[m].0 as int],
                                        decreases body@.len() - e,
                                    {
                                        let x = body[e];
                                        let ghost hmv = hmark@;
                                        let ghost hsv = hstack@;
                                        let pv = !hmark[x];
                                        if pv {
                                            hmark.set(x, true);
                                            hstack.push(x);
                                        }
                                        proof {
                                            assert forall|y: int|
                                                0 <= y < hl && hmark@[y] && !hstack@.contains(
                                                    y as usize,
                                                ) implies marked_children(
                                                self,
                                                hmark@,
                                                smark@,
                                                y,
                                            ) by {
                                                if hmv[y] {
                                                    if hsv.contains(y as usize) {
                                                        if pv {
                                                            lemma_contains_push(
                                                                hsv,
                                                                x,
                                                                y as usize,
                                                            );
                                                        }
                                                        assert(false);
                                                    }
                                                    lemma_marked_children_mono(
                                                        self,
                                                        hmv,
                                                        smark@,
                                                        hmark@,
                                                        smark@,
                                                        y,
                                                    );
                                                } else {
                                                    assert(pv && y == x as int);
                                                    assert(hstack@[hstack@.len() - 1] == x);
                                                    assert(false);
                                                }
                                            }
                                        }
                                        proof {
                                            if done0 {
                                                assert forall|m: int|
                                                    0 <= m < self.frames@[0].binds@.len() implies
                                                    hmark@[(
                                                    #[trigger] self.frames@[0].binds@[m]).1 as int]
                                                        && smark@[
                                                    self.frames@[0].binds@[m].0 as int] by {}
                                            }
                                        }
                                        e = e + 1;
                                    }
                                    let mut e2: usize = 0;
                                    while e2 < params.len()
                                        invariant
                                            e2 <= params@.len(),
                                            sl == self.syms@.len(),
                                            smark@.len() == sl,
                                            hmark@.len() == hl,
                                            hl == self.heap@.len(),
                                            forall|m: int|
                                                0 <= m < sl && m <= SYM_ELSE as int ==> smark@[m],
                                            forall|m: int|
                                                0 <= m < params@.len() ==> (
                                                #[trigger] params@[m]) < sl,
                                            forall|m: int|
                                                0 <= m < hstack@.len() ==> (
                                                #[trigger] hstack@[m]) < hl,
                                            forall|m: int|
                                                0 <= m < hstack@.len() ==> hmark@[(
                                                #[trigger] hstack@[m]) as int],
                                            forall|x: int|
                                                0 <= x < hl && hmark@[x] && !hstack@.contains(
                                                    x as usize,
                                                ) ==> marked_children(self, hmark@, smark@, x),
                                            self.wf(),
                                            fl == self.frames@.len(),
                                            fl > 0,
                                            done0 ==> forall|m: int|
                                                0 <= m < self.frames@[0].binds@.len() ==> hmark@[(
                                                #[trigger] self.frames@[0].binds@[m]).1 as int]
                                                    && smark@[self.frames@[0].binds@[m].0 as int],
                                        decreases params@.len() - e2,
                                    {
                                        let ghost smv = smark@;
                                        smark.set(params[e2], true);
                                        proof {
                                            assert forall|y: int|
                                                0 <= y < hl && hmark@[y] && !hstack@.contains(
                                                    y as usize,
                                                ) implies marked_children(
                                                self,
                                                hmark@,
                                                smark@,
                                                y,
                                            ) by {
                                                lemma_marked_children_mono(
                                                    self,
                                                    hmark@,
                                                    smv,
                                                    hmark@,
                                                    smark@,
                                                    y,
                                                );
                                            }
                                        }
                                        proof {
                                            if done0 {
                                                assert forall|m: int|
                                                    0 <= m < self.frames@[0].binds@.len() implies
                                                    hmark@[(
                                                    #[trigger] self.frames@[0].binds@[m]).1 as int]
                                                        && smark@[
                                                    self.frames@[0].binds@[m].0 as int] by {}
                                            }
                                        }
                                        e2 = e2 + 1;
                                    }
                                    match rest {
                                        Some(sy) => {
                                            let ghost smv = smark@;
                                            smark.set(sy, true);
                                            proof {
                                                assert forall|y: int|
                                                    0 <= y < hl && hmark@[y] && !hstack@.contains(
                                                        y as usize,
                                                    ) implies marked_children(
                                                    self,
                                                    hmark@,
                                                    smark@,
                                                    y,
                                                ) by {
                                                    lemma_marked_children_mono(
                                                        self,
                                                        hmark@,
                                                        smv,
                                                        hmark@,
                                                        smark@,
                                                        y,
                                                    );
                                                }
                                            }
                                        },
                                        None => {},
                                    }
                                },
                                _ => {
                                    proof {
                                        assert forall|x: int|
                                            0 <= x < hl && hmark@[x] && !hstack@.contains(
                                                x as usize,
                                            ) implies marked_children(self, hmark@, smark@, x) by {
                                            if x != h as int {
                                                if prehs.contains(x as usize) {
                                                    lemma_contains_drop(prehs, x as usize);
                                                    assert(false);
                                                }
                                            }
                                        }
                                    }
                                },
                            }
                        },
                        None => {
                            proof {
                                assert(done0);
                            }
                            break ;
                        },
                    }
                },
            }
        }
        let ghost premark = *self;
        proof {
            assert(premark == *old(self));
            assert(forall|x: int|
                0 <= x < hl && hmark@[x] ==> marked_children(&premark, hmark@, smark@, x));
        }
        // sweep: unmarked nodes become free slots, unmarked symbols past
        // the reserved names leave the intern table, unreachable frames
        // drop their bindings
        let mut i2: usize = 0;
        while i2 < hl
            invariant
                self.wf(),
                i2 <= hl,
                hl == self.heap@.len(),
                fl == self.frames@.len(),
                sl == self.syms@.len(),
                self.frames == old(self).frames,
                self.syms == old(self).syms,
                forall|m: int|
                    0 <= m < hl ==> (self.heap@[m] == old(self).heap@[m] || (
                    #[trigger] self.heap@[m]) is Free),
                forall|m: int| 0 <= m < hl && hmark@[m] ==> self.heap@[m] == old(self).heap@[m],
                forall|b: int|
                    0 <= b < old(self).frames@[0].binds@.len() ==> hmark@[(
                    #[trigger] old(self).frames@[0].binds@[b]).1 as int] && smark@[old(
                        self,
                    ).frames@[0].binds@[b].0 as int],
                hmark@.len() == hl,
                smark@.len() == sl,
            decreases hl - i2,
        {
            if !hmark[i2] {
                let already_free = matches!(&self.heap[i2], Node::Free);
                if !already_free {
                    self.set_node(i2, Node::Free);
                }
            }
            i2 = i2 + 1;
        }
        let mut i3: usize = SYM_ELSE + 1;
        while i3 < sl
            invariant
                SYM_ELSE < i3,
                self.wf(),
                hl == self.heap@.len(),
                fl == self.frames@.len(),
                sl == self.syms@.len(),
                self.frames == old(self).frames,
                forall|m: int| 0 <= m < sl && smark@[m] ==> self.syms@[m] == old(self).syms@[m],
                forall|m: int| 0 <= m < hl && hmark@[m] ==> self.heap@[m] == old(self).heap@[m],
                forall|b: int|
                    0 <= b < old(self).frames@[0].binds@.len() ==> hmark@[(
                    #[trigger] old(self).frames@[0].binds@[b]).1 as int] && smark@[old(
                        self,
                    ).frames@[0].binds@[b].0 as int],
                hmark@.len() == hl,
                smark@.len() == sl,

                forall|m: int|
                    0 <= m < hl ==> (self.heap@[m] == old(self).heap@[m] || (
                    #[trigger] self.heap@[m]) is Free),
                forall|m: int|
                    0 <= m < sl ==> (self.syms@[m] == old(self).syms@[m] || (
                    #[trigger] self.syms@[m]) is None),
                forall|m: int|
                    0 <= m <= SYM_ELSE as int && m < sl ==> self.syms@[m] == old(self).syms@[m],
            decreases sl - i3,
        {
            if !smark[i3] {
                self.syms[i3] = None;
                proof {
                    assert forall|m: int|
                        0 <= m < self.heap@.len() implies node_wf(
                        #[trigger] self.heap@[m],
                        self.heap@.len(),
                        self.syms@.len(),
                        self.frames@.len(),
                    ) by {}
                }
            }
            i3 = i3 + 1;
        }
        let mut i4: usize = 0;
        while i4 < fl
            invariant
                self.wf(),
                i4 <= fl,
                hl == self.heap@.len(),
                fl == self.frames@.len(),
                sl == self.syms@.len(),
                fmark@.len() == fl,
                fl > 0 ==> fmark@[0],
                self.frames@[0] == old(self).frames@[0],
                forall|m: int| 0 <= m < sl && smark@[m] ==> self.syms@[m] == old(self).syms@[m],
                forall|m: int| 0 <= m < hl && hmark@[m] ==> self.heap@[m] == old(self).heap@[m],
                forall|b: int|
                    0 <= b < old(self).frames@[0].binds@.len() ==> hmark@[(
                    #[trigger] old(self).frames@[0].binds@[b]).1 as int] && smark@[old(
                        self,
                    ).frames@[0].binds@[b].0 as int],
                hmark@.len() == hl,
                smark@.len() == sl,

                forall|m: int|
                    0 <= m < hl ==> (self.heap@[m] == old(self).heap@[m] || (
                    #[trigger] self.heap@[m]) is Free),
                forall|m: int|
                    0 <= m < sl ==> (self.syms@[m] == old(self).syms@[m] || (
                    #[trigger] self.syms@[m]) is None),
                forall|m: int|
                    0 <= m <= SYM_ELSE as int && m < sl ==> self.syms@[m] == old(self).syms@[m],
                forall|m: int|
                    0 <= m < fl ==> ((#[trigger] self.frames@[m]) == old(self).frames@[m] || (
                    self.frames@[m].parent == old(self).frames@[m].parent
                        && self.frames@[m].binds@.len() == 0)),
            decreases fl - i4,
        {
            if !fmark[i4] {
                let fr = &mut self.frames[i4];
                fr.binds = Vec::new();
                proof {
                    assert forall|m: int|
                        0 <= m < self.frames@.len() implies frame_wf(
                        #[trigger] self.frames@[m],
                        m as nat,
                        self.heap@.len(),
                        self.syms@.len(),
                    ) by {
                        if m != i4 {
                            assert(self.frames@[m] == old(self).frames@[m] || frame_wf(
                                self.frames@[m],
                                m as nat,
                                self.heap@.len(),
                                self.syms@.len(),
                            ));
                        }
                    }
                }
            }
            i4 = i4 + 1;
        }
        // rebuild the free list in ascending order
        self.free = Vec::new();
        proof {
            assert(self.wf());
        }
        let mut i5: usize = 0;
        while i5 < hl
            invariant
                self.wf(),
                i5 <= hl,
                hl == self.heap@.len(),
                fl == self.frames@.len(),
                sl == self.syms@.len(),
                self.frames@[0] == old(self).frames@[0],
                forall|m: int| 0 <= m < sl && smark@[m] ==> self.syms@[m] == old(self).syms@[m],
                forall|m: int|
                    0 <= m < hl ==> (self.heap@[m] == old(self).heap@[m] || (
                    #[trigger] self.heap@[m]) is Free),
                forall|m: int| 0 <= m < hl && hmark@[m] ==> self.heap@[m] == old(self).heap@[m],
                forall|b: int|
                    0 <= b < old(self).frames@[0].binds@.len() ==> hmark@[(
                    #[trigger] old(self).frames@[0].binds@[b]).1 as int] && smark@[old(
                        self,
                    ).frames@[0].binds@[b].0 as int],
                hmark@.len() == hl,
                smark@.len() == sl,

                forall|m: int|
                    0 <= m < sl ==> (self.syms@[m] == old(self).syms@[m] || (
                    #[trigger] self.syms@[m]) is None),
                forall|m: int|
                    0 <= m <= SYM_ELSE as int && m < sl ==> self.syms@[m] == old(self).syms@[m],
                forall|m: int|
                    0 <= m < fl ==> ((#[trigger] self.frames@[m]) == old(self).frames@[m] || (
                    self.frames@[m].parent == old(self).frames@[m].parent
                        && self.frames@[m].binds@.len() == 0)),
                forall|m: int| 0 <= m < self.free@.len() ==> (#[trigger] self.free@[m]) < i5,
            decreases hl - i5,
        {
            if matches!(&self.heap[i5], Node::Free) {
                self.free.push(i5);
            }
            i5 = i5 + 1;
        }
        proof {
            assert forall|b2: int, c: Cell|
                0 <= b2 < old(self).frames@[0].binds@.len() && #[trigger] represents(
                    &*old(self),
                    old(self).frames@[0].binds@[b2].1,
                    c,
                ) implies represents(&*self, old(self).frames@[0].binds@[b2].1, c) by {
                lemma_represents_marked(
                    premark,
                    *self,
                    hmark@,
                    smark@,
                    old(self).frames@[0].binds@[b2].1,
                    c,
                );
            }
        }
    }
}

} // verus!
