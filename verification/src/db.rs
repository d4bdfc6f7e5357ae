//! The key/value store that the chain is kept in: write batches, their
//! inverses, an in-memory store, and an in-memory overlay that buffers
//! writes over a store it only reads.

use vstd::prelude::*;
use crate::bytes::{bytes_eq, bytes_to_vec};

verus! {

/// The logical content of a store: the keys present, and the bytes under each.
pub type Store = Map<Seq<u8>, Seq<u8>>;

#[derive(Clone, Copy, Debug, PartialEq, Eq)]
pub enum KvStoreError {
    /// The underlying store could not serve the request.
    Failure,
    /// A stored value does not decode.
    Corrupted,
}

impl KvStoreError {
    /// What the error says.
    pub open spec fn text(self) -> Seq<char> {
        match self {
            KvStoreError::Failure => "kvstore failure"@,
            KvStoreError::Corrupted => "kvstore data corrupted"@,
        }
    }

    /// What the error says.
    pub fn message(&self) -> (text: &'static str)
        ensures
            text@ == self.text(),
    {
        match self {
            KvStoreError::Failure => "kvstore failure",
            KvStoreError::Corrupted => "kvstore data corrupted",
        }
    }
}

/// One write of a batch.
#[derive(Debug, PartialEq, Eq)]
pub enum WriteOp {
    Remove(Vec<u8>),
    Put(Vec<u8>, Vec<u8>),
}

/// The mathematical value of a `WriteOp`.
pub enum Op {
    Remove(Seq<u8>),
    Put(Seq<u8>, Seq<u8>),
}

impl Op {
    pub open spec fn key(self) -> Seq<u8> {
        match self {
            Op::Remove(k) => k,
            Op::Put(k, _) => k,
        }
    }

    /// What a read of this op's key finds once the op is applied.
    pub open spec fn leaves(self) -> Option<Seq<u8>> {
        match self {
            Op::Remove(_) => None,
            Op::Put(_, v) => Some(v),
        }
    }
}

impl View for WriteOp {
    type V = Op;

    open spec fn view(&self) -> Op {
        match self {
            WriteOp::Remove(k) => Op::Remove(k@),
            WriteOp::Put(k, v) => Op::Put(k@, v@),
        }
    }
}

impl Clone for WriteOp {
    fn clone(&self) -> (copy: WriteOp)
        ensures
            copy@ == self@,
    {
        match self {
            WriteOp::Remove(k) => WriteOp::Remove(bytes_to_vec(k.as_slice())),
            WriteOp::Put(k, v) => WriteOp::Put(bytes_to_vec(k.as_slice()), bytes_to_vec(v.as_slice())),
        }
    }
}

impl WriteOp {
    pub fn key(&self) -> (k: &Vec<u8>)
        ensures
            k@ == self@.key(),
    {
        match self {
            WriteOp::Remove(k) => k,
            WriteOp::Put(k, _) => k,
        }
    }
}

/// The values of a batch, in order.
pub open spec fn ops_view(ops: Seq<WriteOp>) -> Seq<Op> {
    ops.map_values(|o: WriteOp| o@)
}

pub open spec fn lookup(m: Store, k: Seq<u8>) -> Option<Seq<u8>> {
    if m.contains_key(k) {
        Some(m[k])
    } else {
        None
    }
}

pub open spec fn apply_op(m: Store, op: Op) -> Store {
    match op {
        Op::Remove(k) => m.remove(k),
        Op::Put(k, v) => m.insert(k, v),
    }
}

/// The store after a batch: its writes take effect in order.
pub open spec fn apply_ops(m: Store, ops: Seq<Op>) -> Store
    decreases ops.len(),
{
    if ops.len() == 0 {
        m
    } else {
        apply_op(apply_ops(m, ops.drop_last()), ops.last())
    }
}

/// The write that puts key `k` back to what `m` holds for it.
pub open spec fn inverse_op(m: Store, k: Seq<u8>) -> Op {
    if m.contains_key(k) {
        Op::Put(k, m[k])
    } else {
        Op::Remove(k)
    }
}

/// The batch that undoes `ops` on `m`: for each write, in order, the write
/// that restores what `m` holds under the same key.
pub open spec fn inverse_ops(m: Store, ops: Seq<Op>) -> Seq<Op> {
    Seq::new(ops.len(), |i: int| inverse_op(m, ops[i].key()))
}

/// The position of the last write to `k` in `ops`, if there is one.
pub open spec fn last_write(ops: Seq<Op>, k: Seq<u8>) -> Option<int>
    decreases ops.len(),
{
    if ops.len() == 0 {
        None
    } else if ops.last().key() == k {
        Some(ops.len() - 1)
    } else {
        last_write(ops.drop_last(), k)
    }
}

/// A pending batch after one more write: a write to a key that the batch
/// already writes takes the place of the last such write, another is added
/// at the end.
pub open spec fn absorb(pending: Seq<Op>, op: Op) -> Seq<Op> {
    match last_write(pending, op.key()) {
        Some(i) => pending.update(i, op),
        None => pending.push(op),
    }
}

pub open spec fn absorb_all(pending: Seq<Op>, ops: Seq<Op>) -> Seq<Op>
    decreases ops.len(),
{
    if ops.len() == 0 {
        pending
    } else {
        absorb(absorb_all(pending, ops.drop_last()), ops.last())
    }
}

pub proof fn lemma_last_write(ops: Seq<Op>, k: Seq<u8>)
    ensures
        match last_write(ops, k) {
            Some(i) => 0 <= i < ops.len() && ops[i].key() == k && forall|j: int|
                i < j < ops.len() ==> (#[trigger] ops[j]).key() != k,
            None => forall|j: int| 0 <= j < ops.len() ==> (#[trigger] ops[j]).key() != k,
        },
    decreases ops.len(),
{
    if ops.len() > 0 && ops.last().key() != k {
        lemma_last_write(ops.drop_last(), k);
        match last_write(ops.drop_last(), k) {
            Some(i) => {
                assert forall|j: int| i < j < ops.len() implies (#[trigger] ops[j]).key() != k by {
                    if j < ops.len() - 1 {
                        assert(ops.drop_last()[j] == ops[j]);
                    }
                }
            },
            None => {
                assert forall|j: int| 0 <= j < ops.len() implies (#[trigger] ops[j]).key() != k by {
                    if j < ops.len() - 1 {
                        assert(ops.drop_last()[j] == ops[j]);
                    }
                }
            },
        }
    }
}

/// The last write to `k` is found by its properties.
pub proof fn lemma_last_write_is(ops: Seq<Op>, k: Seq<u8>, i: int)
    requires
        0 <= i < ops.len(),
        ops[i].key() == k,
        forall|j: int| i < j < ops.len() ==> (#[trigger] ops[j]).key() != k,
    ensures
        last_write(ops, k) == Some(i),
{
    lemma_last_write(ops, k);
}

pub proof fn lemma_last_write_none(ops: Seq<Op>, k: Seq<u8>)
    requires
        forall|j: int| 0 <= j < ops.len() ==> (#[trigger] ops[j]).key() != k,
    ensures
        last_write(ops, k) is None,
{
    lemma_last_write(ops, k);
}

/// A read after a batch finds what the last write to that key left, and
/// what was there before where the batch does not write the key.
pub proof fn lemma_apply_ops_lookup(m: Store, ops: Seq<Op>, k: Seq<u8>)
    ensures
        lookup(apply_ops(m, ops), k) == match last_write(ops, k) {
            Some(i) => ops[i].leaves(),
            None => lookup(m, k),
        },
    decreases ops.len(),
{
    if ops.len() > 0 {
        lemma_apply_ops_lookup(m, ops.drop_last(), k);
        if ops.last().key() != k {
            match last_write(ops.drop_last(), k) {
                Some(i) => {
                    lemma_last_write(ops.drop_last(), k);
                    assert(ops.drop_last()[i] == ops[i]);
                },
                None => {},
            }
        }
    }
}

/// Two stores in which every read finds the same are the same store.
pub proof fn lemma_store_ext(a: Store, b: Store)
    requires
        forall|k: Seq<u8>| lookup(a, k) == lookup(b, k),
    ensures
        a == b,
{
    assert forall|k: Seq<u8>| a.contains_key(k) == b.contains_key(k) by {
        assert(lookup(a, k) == lookup(b, k));
    }
    assert forall|k: Seq<u8>| a.contains_key(k) implies a[k] == b[k] by {
        assert(lookup(a, k) == lookup(b, k));
    }
    assert(a =~= b);
}

pub proof fn lemma_apply_ops_push(m: Store, ops: Seq<Op>, op: Op)
    ensures
        apply_ops(m, ops.push(op)) == apply_op(apply_ops(m, ops), op),
{
    assert(ops.push(op).drop_last() =~= ops);
}

/// Applying two batches one after the other is applying their concatenation.
pub proof fn lemma_apply_ops_concat(m: Store, a: Seq<Op>, b: Seq<Op>)
    ensures
        apply_ops(m, a + b) == apply_ops(apply_ops(m, a), b),
    decreases b.len(),
{
    if b.len() == 0 {
        assert(a + b =~= a);
    } else {
        lemma_apply_ops_concat(m, a, b.drop_last());
        assert((a + b).drop_last() =~= a + b.drop_last());
    }
}

/// Absorbing a write into a pending batch has the effect of applying the
/// write after the batch.
pub proof fn lemma_absorb(m: Store, pending: Seq<Op>, op: Op)
    ensures
        apply_ops(m, absorb(pending, op)) == apply_op(apply_ops(m, pending), op),
{
    match last_write(pending, op.key()) {
        None => {
            lemma_apply_ops_push(m, pending, op);
        },
        Some(i) => {
            lemma_last_write(pending, op.key());
            let next = pending.update(i, op);
            assert forall|k: Seq<u8>| lookup(apply_ops(m, next), k) == lookup(
                apply_op(apply_ops(m, pending), op),
                k,
            ) by {
                lemma_apply_ops_lookup(m, next, k);
                lemma_apply_ops_lookup(m, pending, k);
                lemma_last_write(pending, k);
                if k == op.key() {
                    lemma_last_write_is(next, k, i);
                } else {
                    match last_write(pending, k) {
                        Some(j) => {
                            lemma_last_write_is(next, k, j);
                        },
                        None => {
                            lemma_last_write_none(next, k);
                        },
                    }
                }
            }
            lemma_store_ext(apply_ops(m, next), apply_op(apply_ops(m, pending), op));
        },
    }
}

pub proof fn lemma_absorb_all(m: Store, pending: Seq<Op>, ops: Seq<Op>)
    ensures
        apply_ops(m, absorb_all(pending, ops)) == apply_ops(apply_ops(m, pending), ops),
    decreases ops.len(),
{
    if ops.len() > 0 {
        lemma_absorb_all(m, pending, ops.drop_last());
        lemma_absorb(m, absorb_all(pending, ops.drop_last()), ops.last());
    }
}

/// A batch followed by its inverse leaves the store as it was.
pub proof fn lemma_inverse_undoes(m: Store, ops: Seq<Op>)
    ensures
        apply_ops(apply_ops(m, ops), inverse_ops(m, ops)) == m,
{
    let inv = inverse_ops(m, ops);
    let end = apply_ops(apply_ops(m, ops), inv);
    assert forall|k: Seq<u8>| lookup(end, k) == lookup(m, k) by {
        lemma_apply_ops_lookup(apply_ops(m, ops), inv, k);
        lemma_apply_ops_lookup(m, ops, k);
        lemma_last_write(inv, k);
        lemma_last_write(ops, k);
        match last_write(inv, k) {
            Some(i) => {},
            None => {
                match last_write(ops, k) {
                    Some(j) => {
                        assert(inv[j].key() == k);
                    },
                    None => {},
                }
            },
        }
    }
    lemma_store_ext(end, m);
}

/// The position of the last write to `k` in a batch.
pub fn find_last_write(ops: &Vec<WriteOp>, k: &[u8]) -> (found: Option<usize>)
    ensures
        match found {
            Some(i) => last_write(ops_view(ops@), k@) == Some(i as int),
            None => last_write(ops_view(ops@), k@) is None,
        },
{
    let mut i: usize = ops.len();
    while i > 0
        invariant
            i <= ops.len(),
            forall|j: int| i <= j < ops.len() ==> (#[trigger] ops_view(ops@)[j]).key() != k@,
        decreases i,
    {
        i = i - 1;
        if bytes_eq(ops[i].key().as_slice(), k) {
            proof {
                lemma_last_write_is(ops_view(ops@), k@, i as int);
            }
            return Some(i);
        }
    }
    proof {
        lemma_last_write_none(ops_view(ops@), k@);
    }
    None
}

/// Takes one more write into a pending batch.
pub fn absorb_op(pending: &mut Vec<WriteOp>, op: WriteOp)
    ensures
        ops_view(final(pending)@) == absorb(ops_view(old(pending)@), op@),
{
    let found = find_last_write(pending, op.key().as_slice());
    let ghost before = ops_view(pending@);
    match found {
        Some(i) => {
            proof {
                lemma_last_write(before, op@.key());
            }
            pending.set(i, op);
            assert(ops_view(pending@) =~= before.update(i as int, op@));
        },
        None => {
            pending.push(op);
            assert(ops_view(pending@) =~= before.push(op@));
        },
    }
}

/// What a key/value store offers the chain. `view` is the store's logical
/// content; a store that is not `reliable` may answer any request with
/// `KvStoreError::Failure`, and then nothing has changed.
pub trait KvStore: Sized {
    spec fn view(&self) -> Store;

    /// Whether this store serves every request.
    spec fn reliable(&self) -> bool;

    /// How a successful `update` with the batch `ops` leads from this store
    /// to `next`.
    spec fn steps_to(&self, ops: Seq<Op>, next: &Self) -> bool;

    /// An update writes the batch, in order, and nothing else.
    proof fn lemma_steps_to(&self, ops: Seq<Op>, next: &Self)
        requires
            self.steps_to(ops, next),
        ensures
            next@ == apply_ops(self@, ops),
            next.reliable() == self.reliable(),
    ;

    fn get(&self, k: &[u8]) -> (r: Result<Option<Vec<u8>>, KvStoreError>)
        ensures
            match r {
                Ok(Some(v)) => lookup(self@, k@) == Some(v@),
                Ok(None) => lookup(self@, k@) is None,
                Err(e) => e == KvStoreError::Failure && !self.reliable(),
            },
    ;

    fn update(&mut self, ops: &Vec<WriteOp>) -> (r: Result<(), KvStoreError>)
        ensures
            match r {
                Ok(_) => old(self).steps_to(ops_view(ops@), final(self)),
                Err(e) => e == KvStoreError::Failure && !old(self).reliable() && *final(self)
                    == *old(self),
            },
    ;

    /// The batch that would undo `ops` on the store as it is now.
    fn rollback_of(&self, ops: &Vec<WriteOp>) -> (r: Result<Vec<WriteOp>, KvStoreError>)
        ensures
            match r {
                Ok(inv) => ops_view(inv@) == inverse_ops(self@, ops_view(ops@)),
                Err(e) => e == KvStoreError::Failure && !self.reliable(),
            },
            ops@.len() == 0 ==> r is Ok,
    {
        let mut inv: Vec<WriteOp> = Vec::new();
        let mut i: usize = 0;
        while i < ops.len()
            invariant
                i <= ops.len(),
                ops_view(inv@) == inverse_ops(self@, ops_view(ops@).take(i as int)),
            decreases ops.len() - i,
        {
            let key = bytes_to_vec(ops[i].key().as_slice());
            let undo = match self.get(key.as_slice()) {
                Ok(Some(v)) => WriteOp::Put(key, v),
                Ok(None) => WriteOp::Remove(key),
                Err(e) => {
                    return Err(e);
                },
            };
            let ghost before = ops_view(inv@);
            inv.push(undo);
            assert(ops_view(inv@) =~= before.push(undo@));
            assert(ops_view(inv@) =~= inverse_ops(self@, ops_view(ops@).take(i as int + 1)));
            i = i + 1;
        }
        assert(ops_view(ops@).take(ops@.len() as int) =~= ops_view(ops@));
        Ok(inv)
    }
}

/// Whether every write of the batch is a `Put`, and no two write one key.
pub open spec fn distinct_puts(ops: Seq<Op>) -> bool {
    &&& forall|i: int| 0 <= i < ops.len() ==> (#[trigger] ops[i]) is Put
    &&& forall|i: int, j: int|
        0 <= i < j < ops.len() ==> (#[trigger] ops[i]).key() != (#[trigger] ops[j]).key()
}

/// A store held in memory.
pub struct RamKvStore {
    entries: Vec<WriteOp>,
}

impl RamKvStore {
    #[verifier::type_invariant]
    spec fn entries_distinct(self) -> bool {
        distinct_puts(ops_view(self.entries@))
    }

    /// The empty store.
    pub fn new() -> (store: RamKvStore)
        ensures
            store@ == Store::empty(),
    {
        RamKvStore { entries: Vec::new() }
    }

    fn put(&mut self, k: &[u8], v: &[u8])
        ensures
            final(self)@ == old(self)@.insert(k@, v@),
    {
        proof {
            use_type_invariant(&*self);
        }
        let ghost before = ops_view(self.entries@);
        let op = WriteOp::Put(bytes_to_vec(k), bytes_to_vec(v));
        let mut entries: Vec<WriteOp> = Vec::new();
        std::mem::swap(&mut self.entries, &mut entries);
        absorb_op(&mut entries, op);
        proof {
            lemma_absorb(Store::empty(), before, op@);
            lemma_absorb_distinct(before, op@);
        }
        self.entries = entries;
    }

    fn remove(&mut self, k: &[u8])
        ensures
            final(self)@ == old(self)@.remove(k@),
    {
        proof {
            use_type_invariant(&*self);
        }
        let ghost before = ops_view(self.entries@);
        match find_last_write(&self.entries, k) {
            Some(i) => {
                proof {
                    lemma_last_write(before, k@);
                    lemma_distinct_remove(before, i as int);
                }
                let mut entries: Vec<WriteOp> = Vec::new();
                std::mem::swap(&mut self.entries, &mut entries);
                entries.remove(i);
                assert(ops_view(entries@) =~= before.remove(i as int));
                self.entries = entries;
            },
            None => {
                proof {
                    lemma_apply_ops_lookup(Store::empty(), before, k@);
                    assert(old(self)@.remove(k@) =~= old(self)@);
                }
            },
        }
    }
}

/// Distinct puts that absorb a put stay distinct puts.
pub proof fn lemma_absorb_distinct(ops: Seq<Op>, op: Op)
    requires
        distinct_puts(ops),
        op is Put,
    ensures
        distinct_puts(absorb(ops, op)),
{
    lemma_last_write(ops, op.key());
}

/// Taking one entry out of distinct puts leaves distinct puts, and takes
/// its key out of the store that they make.
pub proof fn lemma_distinct_remove(ops: Seq<Op>, i: int)
    requires
        distinct_puts(ops),
        0 <= i < ops.len(),
    ensures
        distinct_puts(ops.remove(i)),
        apply_ops(Store::empty(), ops.remove(i)) == apply_ops(Store::empty(), ops).remove(
            ops[i].key(),
        ),
{
    let rest = ops.remove(i);
    let key = ops[i].key();
    assert forall|a: int| 0 <= a < rest.len() implies (#[trigger] rest[a]) is Put by {
        assert(rest[a] == ops[if a < i { a } else { a + 1 }]);
    }
    assert forall|a: int, b: int| 0 <= a < b < rest.len() implies (#[trigger] rest[a]).key() != (
    #[trigger] rest[b]).key() by {
        assert(rest[a] == ops[if a < i { a } else { a + 1 }]);
        assert(rest[b] == ops[if b < i { b } else { b + 1 }]);
    }
    let e = Store::empty();
    assert forall|k: Seq<u8>| lookup(apply_ops(e, rest), k) == lookup(
        apply_ops(e, ops).remove(key),
        k,
    ) by {
        lemma_apply_ops_lookup(e, rest, k);
        lemma_apply_ops_lookup(e, ops, k);
        lemma_last_write(rest, k);
        lemma_last_write(ops, k);
        match last_write(rest, k) {
            Some(a) => {
                let a2 = if a < i { a } else { a + 1 };
                assert(rest[a] == ops[a2]);
                assert(last_write(ops, k) == Some(a2)) by {
                    assert forall|j: int| a2 < j < ops.len() implies (#[trigger] ops[j]).key()
                        != k by {
                        assert(ops[a2].key() == k);
                    }
                    lemma_last_write_is(ops, k, a2);
                }
            },
            None => {
                if k != key {
                    match last_write(ops, k) {
                        Some(b) => {
                            let b2 = if b < i { b } else { b - 1 };
                            assert(rest[b2] == ops[b]);
                        },
                        None => {},
                    }
                }
            },
        }
    }
    lemma_store_ext(apply_ops(e, rest), apply_ops(e, ops).remove(key));
}

impl KvStore for RamKvStore {
    closed spec fn view(&self) -> Store {
        apply_ops(Store::empty(), ops_view(self.entries@))
    }

    open spec fn reliable(&self) -> bool {
        true
    }

    open spec fn steps_to(&self, ops: Seq<Op>, next: &Self) -> bool {
        next@ == apply_ops(self@, ops)
    }

    proof fn lemma_steps_to(&self, ops: Seq<Op>, next: &Self) {
    }

    fn get(&self, k: &[u8]) -> (r: Result<Option<Vec<u8>>, KvStoreError>)
        ensures
            r is Ok,
    {
        proof {
            lemma_apply_ops_lookup(Store::empty(), ops_view(self.entries@), k@);
            lemma_last_write(ops_view(self.entries@), k@);
            use_type_invariant(self);
        }
        match find_last_write(&self.entries, k) {
            Some(i) => match &self.entries[i] {
                WriteOp::Put(_, v) => Ok(Some(bytes_to_vec(v.as_slice()))),
                WriteOp::Remove(_) => Ok(None),
            },
            None => Ok(None),
        }
    }

    fn update(&mut self, ops: &Vec<WriteOp>) -> (r: Result<(), KvStoreError>)
        ensures
            r is Ok,
    {
        let mut i: usize = 0;
        while i < ops.len()
            invariant
                i <= ops.len(),
                self@ == apply_ops(old(self)@, ops_view(ops@).take(i as int)),
            decreases ops.len() - i,
        {
            proof {
                lemma_apply_ops_push(old(self)@, ops_view(ops@).take(i as int), ops@[i as int]@);
                assert(ops_view(ops@).take(i as int + 1) =~= ops_view(ops@).take(i as int).push(
                    ops@[i as int]@,
                ));
            }
            match &ops[i] {
                WriteOp::Put(k, v) => self.put(k.as_slice(), v.as_slice()),
                WriteOp::Remove(k) => self.remove(k.as_slice()),
            }
            i = i + 1;
        }
        assert(ops_view(ops@).take(ops@.len() as int) =~= ops_view(ops@));
        Ok(())
    }
}

/// An overlay in memory over a store that it only reads. Writes are
/// buffered as a pending batch, reads see the backing store with that batch
/// applied, and the backing store itself never changes.
pub struct RamMirrorKvStore<'a, K: KvStore> {
    store: &'a K,
    pending: Vec<WriteOp>,
}

impl<'a, K: KvStore> RamMirrorKvStore<'a, K> {
    /// The store underneath.
    pub closed spec fn backing(&self) -> &K {
        self.store
    }

    /// The buffered writes, in the order in which `to_ops` hands them out.
    pub closed spec fn pending(&self) -> Seq<Op> {
        ops_view(self.pending@)
    }

    pub fn new(store: &'a K) -> (mirror: Self)
        ensures
            mirror.backing() == store,
            mirror.pending() == Seq::<Op>::empty(),
            mirror@ == store@,
    {
        let mirror = RamMirrorKvStore { store, pending: Vec::new() };
        assert(mirror.pending() =~= Seq::<Op>::empty());
        mirror
    }

    /// The buffered writes as one batch for the backing store.
    pub fn to_ops(self) -> (ops: Vec<WriteOp>)
        ensures
            ops_view(ops@) == self.pending(),
    {
        self.pending
    }
}

impl<'a, K: KvStore> KvStore for RamMirrorKvStore<'a, K> {
    open spec fn view(&self) -> Store {
        apply_ops(self.backing()@, self.pending())
    }

    open spec fn reliable(&self) -> bool {
        self.backing().reliable()
    }

    open spec fn steps_to(&self, ops: Seq<Op>, next: &Self) -> bool {
        &&& next.backing() == self.backing()
        &&& next.pending() == absorb_all(self.pending(), ops)
    }

    proof fn lemma_steps_to(&self, ops: Seq<Op>, next: &Self) {
        lemma_absorb_all(self.backing()@, self.pending(), ops);
    }

    fn get(&self, k: &[u8]) -> (r: Result<Option<Vec<u8>>, KvStoreError>) {
        proof {
            lemma_apply_ops_lookup(self.store@, ops_view(self.pending@), k@);
            lemma_last_write(ops_view(self.pending@), k@);
        }
        match find_last_write(&self.pending, k) {
            Some(i) => match &self.pending[i] {
                WriteOp::Put(_, v) => Ok(Some(bytes_to_vec(v.as_slice()))),
                WriteOp::Remove(_) => Ok(None),
            },
            None => self.store.get(k),
        }
    }

    fn update(&mut self, ops: &Vec<WriteOp>) -> (r: Result<(), KvStoreError>)
        ensures
            r is Ok,
    {
        let mut i: usize = 0;
        while i < ops.len()
            invariant
                i <= ops.len(),
                self.backing() == old(self).backing(),
                self.pending() == absorb_all(old(self).pending(), ops_view(ops@).take(i as int)),
            decreases ops.len() - i,
        {
            proof {
                assert(ops_view(ops@).take(i as int + 1).drop_last() =~= ops_view(ops@).take(
                    i as int,
                ));
            }
            absorb_op(&mut self.pending, ops[i].clone());
            i = i + 1;
        }
        assert(ops_view(ops@).take(ops@.len() as int) =~= ops_view(ops@));
        Ok(())
    }
}

} // verus!
