use vstd::prelude::*;
use std::collections::HashMap;

verus! {

/// The id of the client that owns an entity; the server is client 0.
#[derive(Debug, Clone, Copy, PartialEq, Eq, Structural)]
pub struct ClientID(u32);

impl ClientID {
    pub closed spec fn spec_val(&self) -> u32 {
        self.0
    }

    pub fn new(id: u32) -> (r: ClientID)
        ensures
            r.spec_val() == id,
    {
        ClientID(id)
    }

    pub fn val(&self) -> (r: u32)
        ensures
            r == self.spec_val(),
    {
        self.0
    }
}

impl Default for ClientID {
    fn default() -> (r: ClientID)
        ensures
            r.spec_val() == 0,
    {
        ClientID(0)
    }
}

/// The client id of a new connection.
#[derive(Debug, Clone, Copy, PartialEq, Eq, Structural)]
pub struct NewConnection(pub u32);

impl NewConnection {
    pub fn new(id: u32) -> (r: NewConnection)
        ensures
            r.0 == id,
    {
        NewConnection(id)
    }
}

/// The client id of a connection that went away.
#[derive(Debug, Clone, Copy, PartialEq, Eq, Structural)]
pub struct Disconnection(pub u32);

impl Disconnection {
    pub fn new(id: u32) -> (r: Disconnection)
        ensures
            r.0 == id,
    {
        Disconnection(id)
    }
}

/// Marks the client whose arrival the game state has to be told about.
#[derive(Debug, Clone, Copy, PartialEq, Eq, Structural)]
pub struct OnClientConnected(pub u32);

impl OnClientConnected {
    pub fn new(id: u32) -> (r: OnClientConnected)
        ensures
            r.0 == id,
    {
        OnClientConnected(id)
    }
}

/// How a message travels: as soon as possible, surely, or surely and in order.
#[derive(Debug, Clone, Copy, PartialEq, Eq, Structural)]
pub enum MessageType {
    Instant,
    Reliable,
    Ordered,
}

/// One piece of a message too large for a single packet.
pub struct MessageFragment {
    /// Identifies the message the piece belongs to.
    pub uuid: u128,
    /// Position of the piece in the message.
    pub id: usize,
    /// Size of every piece but possibly the last.
    pub size: usize,
    /// How many pieces the message was split into.
    pub pieces: usize,
    pub payload: Vec<u8>,
}

/// The number read from `b` as a big-endian unsigned integer.
pub open spec fn be_value(b: Seq<u8>) -> int
    decreases b.len(),
{
    if b.len() == 0 {
        0
    } else {
        be_value(b.drop_last()) * 256 + b.last()
    }
}

/// The payload bytes of the fragments, one after the other.
pub open spec fn joined_payloads(fs: Seq<MessageFragment>) -> Seq<u8>
    decreases fs.len(),
{
    if fs.len() == 0 {
        Seq::empty()
    } else {
        joined_payloads(fs.drop_last()) + fs.last().payload@
    }
}

/// The number of pieces of `size` bytes that `len` bytes take.
pub open spec fn piece_count(len: nat, size: nat) -> nat {
    if len == 0 { 0 } else { ((len - 1) as nat / size + 1) as nat }
}

/// Reads the message id from the first sixteen bytes of a payload.
#[verifier::external_body]
fn uuid_from_bytes(bytes: &[u8]) -> (r: u128)
    requires
        bytes@.len() == 16,
    ensures
        r as int == be_value(bytes@),
{
    uuid::Builder::from_slice(bytes).unwrap().build().as_u128()
}

/// The bytes `start..end` of `v`.
fn copy_range(v: &Vec<u8>, start: usize, end: usize) -> (r: Vec<u8>)
    requires
        start <= end <= v@.len(),
    ensures
        r@ == v@.subrange(start as int, end as int),
{
    let mut r: Vec<u8> = Vec::new();
    let mut i = start;
    while i < end
        invariant
            start <= i <= end <= v@.len(),
            r@ == v@.subrange(start as int, i as int),
        decreases end - i,
    {
        r.push(v[i]);
        proof {
            assert(r@ =~= v@.subrange(start as int, i + 1));
        }
        i += 1;
    }
    r
}

/// The message id of a payload: its first sixteen bytes, read big-endian.
pub fn payload_uuid(payload: &Vec<u8>) -> (r: u128)
    requires
        payload@.len() >= 16,
    ensures
        r as int == be_value(payload@.subrange(0, 16)),
{
    let head = copy_range(payload, 0, 16);
    uuid_from_bytes(head.as_slice())
}

/// Splits a payload that is too large for one packet into pieces of `size` bytes (the last
/// piece may be shorter), all tagged with the message id read from the payload's head.
pub fn fragment_payload(payload: &Vec<u8>, size: usize) -> (r: Vec<MessageFragment>)
    requires
        size > 0,
        payload@.len() > size,
        payload@.len() >= 16,
    ensures
        r@.len() == piece_count(payload@.len(), size as nat),
        forall|i: int|
            0 <= i < r@.len() ==> {
                &&& (#[trigger] r@[i]).uuid as int == be_value(payload@.subrange(0, 16))
                &&& r@[i].id == i
                &&& r@[i].size == size
                &&& r@[i].pieces == r@.len()
                &&& r@[i].payload@ == payload@.subrange(
                    i * size,
                    if i * size + size <= payload@.len() { i * size + size } else { payload@.len() as int },
                )
            },
{
    let len = payload.len();
    let pieces = (len - 1) / size + 1;
    let uuid = payload_uuid(payload);
    let mut fragments: Vec<MessageFragment> = Vec::new();
    let mut i: usize = 0;
    while i < pieces
        invariant
            len == payload@.len(),
            size > 0,
            pieces == piece_count(len as nat, size as nat),
            i <= pieces,
            uuid as int == be_value(payload@.subrange(0, 16)),
            fragments@.len() == i,
            forall|k: int|
                0 <= k < i ==> {
                    &&& (#[trigger] fragments@[k]).uuid as int == be_value(payload@.subrange(0, 16))
                    &&& fragments@[k].id == k
                    &&& fragments@[k].size == size
                    &&& fragments@[k].pieces == pieces
                    &&& fragments@[k].payload@ == payload@.subrange(
                        k * size,
                        if k * size + size <= payload@.len() { k * size + size } else { payload@.len() as int },
                    )
                },
        decreases pieces - i,
    {
        proof {
            assert(i * size <= len - 1) by (nonlinear_arith)
                requires
                    i < pieces,
                    pieces == (len - 1) / (size as int) + 1,
                    size > 0,
                    len >= 1,
            {
                assert(i <= (len - 1) / (size as int));
                assert(i * size <= ((len - 1) / (size as int)) * size);
                assert(((len - 1) / (size as int)) * size <= len - 1);
            }
        }
        let start = i * size;
        let end = if len - start > size { start + size } else { len };
        let piece = copy_range(payload, start, end);
        fragments.push(MessageFragment { uuid, id: i, size, pieces, payload: piece });
        i += 1;
    }
    fragments
}

/// Splitting a payload and joining the pieces back in order gives the payload again.
pub proof fn lemma_fragments_join(payload: Seq<u8>, size: nat, fs: Seq<MessageFragment>)
    requires
        size > 0,
        payload.len() > 0,
        fs.len() == piece_count(payload.len(), size),
        forall|i: int|
            0 <= i < fs.len() ==> (#[trigger] fs[i]).payload@ == payload.subrange(
                i * size,
                if i * size + size <= payload.len() { i * size + size } else { payload.len() as int },
            ),
    ensures
        joined_payloads(fs) == payload,
{
    let len = payload.len() as int;
    let n = fs.len() as int;
    assert(n * size >= len) by (nonlinear_arith)
        requires
            n == (len - 1) / (size as int) + 1,
            size > 0,
            len >= 1,
    {
        assert((len - 1) < ((len - 1) / (size as int) + 1) * size);
    }
    lemma_fragments_prefix(payload, size, fs, n as nat);
    assert(fs.take(n) =~= fs);
    assert(payload.subrange(0, len) =~= payload);
}

#[verifier::spinoff_prover]
proof fn lemma_fragments_prefix(payload: Seq<u8>, size: nat, fs: Seq<MessageFragment>, k: nat)
    requires
        size > 0,
        payload.len() > 0,
        k <= fs.len(),
        fs.len() == piece_count(payload.len(), size),
        forall|i: int|
            0 <= i < fs.len() ==> (#[trigger] fs[i]).payload@ == payload.subrange(
                i * size,
                if i * size + size <= payload.len() { i * size + size } else { payload.len() as int },
            ),
    ensures
        joined_payloads(fs.take(k as int)) == payload.subrange(
            0,
            if k * size <= payload.len() { (k * size) as int } else { payload.len() as int },
        ),
    decreases k,
{
    let len = payload.len() as int;
    if k == 0 {
        assert(joined_payloads(fs.take(0)) =~= Seq::<u8>::empty());
        assert(payload.subrange(0, 0) =~= Seq::<u8>::empty());
    } else {
        let j = (k - 1) as nat;
        lemma_fragments_prefix(payload, size, fs, j);
        assert(fs.take(k as int).drop_last() =~= fs.take(j as int));
        assert(fs.take(k as int).last() == fs[j as int]);
        assert(j * size <= len - 1) by (nonlinear_arith)
            requires
                j < fs.len(),
                fs.len() == (len - 1) / (size as int) + 1,
                size > 0,
                len >= 1,
        {
            assert(j <= (len - 1) / (size as int));
            assert(j * size <= ((len - 1) / (size as int)) * size);
            assert(((len - 1) / (size as int)) * size <= len - 1);
        }
        assert(k * size == j * size + size) by (nonlinear_arith)
            requires
                k == j + 1,
        ;
        assert(joined_payloads(fs.take(k as int)) =~= payload.subrange(
            0,
            if k * size <= len { (k * size) as int } else { len },
        ));
    }
}

/// `f` placed into `s` after every piece whose id is not above its own.
pub open spec fn insert_by_id(s: Seq<MessageFragment>, f: MessageFragment) -> Seq<MessageFragment>
    decreases s.len(),
{
    if s.len() == 0 || s.last().id <= f.id {
        s.push(f)
    } else {
        insert_by_id(s.drop_last(), f).push(s.last())
    }
}

/// The pieces ordered by id; pieces with equal ids keep their order.
pub open spec fn sort_by_id(s: Seq<MessageFragment>) -> Seq<MessageFragment>
    decreases s.len(),
{
    if s.len() == 0 {
        s
    } else {
        insert_by_id(sort_by_id(s.drop_last()), s.last())
    }
}

/// The ids never decrease along the sequence.
pub open spec fn ids_ascending(s: Seq<MessageFragment>) -> bool {
    forall|i: int, j: int| 0 <= i <= j < s.len() ==> (#[trigger] s[i]).id <= (#[trigger] s[j]).id
}

/// Sorting pieces that are already in order of id changes nothing.
pub proof fn lemma_sorted_is_fixed(s: Seq<MessageFragment>)
    requires
        ids_ascending(s),
    ensures
        sort_by_id(s) == s,
    decreases s.len(),
{
    if s.len() > 0 {
        let d = s.drop_last();
        assert(ids_ascending(d)) by {
            assert forall|i: int, j: int| 0 <= i <= j < d.len() implies (#[trigger] d[i]).id <= (#[trigger] d[j]).id by {
                assert(d[i] == s[i] && d[j] == s[j]);
            }
        }
        lemma_sorted_is_fixed(d);
        if d.len() > 0 {
            assert(d.last() == s[s.len() - 2]);
            assert(s[s.len() - 2].id <= s[s.len() - 1].id);
        }
        assert(d.push(s.last()) =~= s);
    }
}

proof fn lemma_insert_at(s: Seq<MessageFragment>, f: MessageFragment, p: int)
    requires
        0 <= p <= s.len(),
        forall|k: int| p <= k < s.len() ==> (#[trigger] s[k]).id > f.id,
        p == 0 || s[p - 1].id <= f.id,
    ensures
        insert_by_id(s, f) == s.insert(p, f),
    decreases s.len(),
{
    if s.len() == 0 {
        assert(s.insert(p, f) =~= s.push(f));
    } else if s.last().id <= f.id {
        assert(p == s.len());
        assert(s.insert(p, f) =~= s.push(f));
    } else {
        let d = s.drop_last();
        assert(p < s.len());
        assert forall|k: int| p <= k < d.len() implies (#[trigger] d[k]).id > f.id by {
            assert(d[k] == s[k]);
        }
        lemma_insert_at(d, f, p);
        assert(d.insert(p, f).push(s.last()) =~= s.insert(p, f));
    }
}

impl MessageFragment {
    /// A copy of the piece.
    pub fn duplicate(&self) -> (r: MessageFragment)
        ensures
            r.uuid == self.uuid,
            r.id == self.id,
            r.size == self.size,
            r.pieces == self.pieces,
            r.payload@ == self.payload@,
    {
        let payload = copy_range(&self.payload, 0, self.payload.len());
        proof {
            assert(self.payload@.subrange(0, self.payload@.len() as int) =~= self.payload@);
        }
        MessageFragment { uuid: self.uuid, id: self.id, size: self.size, pieces: self.pieces, payload }
    }
}

/// Places `f` into `v` after every piece whose id is not above its own.
fn insert_fragment(v: &mut Vec<MessageFragment>, f: MessageFragment)
    ensures
        final(v)@ == insert_by_id(old(v)@, f),
{
    let mut p = v.len();
    while p > 0 && v[p - 1].id > f.id
        invariant
            p <= v@.len(),
            v@ == old(v)@,
            forall|k: int| p <= k < v@.len() ==> (#[trigger] v@[k]).id > f.id,
        decreases p,
    {
        p -= 1;
    }
    proof {
        lemma_insert_at(v@, f, p as int);
    }
    v.insert(p, f);
}

/// The pieces ordered by id, keeping the order of pieces with equal ids.
fn sort_fragments(v: Vec<MessageFragment>) -> (r: Vec<MessageFragment>)
    ensures
        r@ == sort_by_id(v@),
{
    let ghost orig = v@;
    let mut input = v;
    let mut result: Vec<MessageFragment> = Vec::new();
    let ghost mut k: int = 0;
    while input.len() > 0
        invariant
            0 <= k <= orig.len(),
            input@ == orig.skip(k),
            result@ == sort_by_id(orig.take(k)),
        decreases input@.len(),
    {
        let f = input.remove(0);
        proof {
            assert(f == orig[k]);
            assert(orig.take(k + 1).drop_last() =~= orig.take(k));
            assert(orig.take(k + 1).last() == orig[k]);
        }
        insert_fragment(&mut result, f);
        proof {
            assert(input@ =~= orig.skip(k + 1));
            k = k + 1;
        }
    }
    proof {
        assert(orig.take(k) =~= orig);
    }
    result
}

/// The payloads of the pieces, one after the other.
fn join_fragments(fs: &Vec<MessageFragment>) -> (r: Vec<u8>)
    ensures
        r@ == joined_payloads(fs@),
{
    let mut combined: Vec<u8> = Vec::new();
    let n = fs.len();
    let mut i: usize = 0;
    while i < n
        invariant
            n == fs@.len(),
            i <= n,
            combined@ == joined_payloads(fs@.take(i as int)),
        decreases n - i,
    {
        let mut part = copy_range(&fs[i].payload, 0, fs[i].payload.len());
        proof {
            assert(fs@[i as int].payload@.subrange(0, fs@[i as int].payload@.len() as int) =~= fs@[i as int].payload@);
            assert(fs@.take(i + 1).drop_last() =~= fs@.take(i as int));
            assert(fs@.take(i + 1).last() == fs@[i as int]);
        }
        combined.append(&mut part);
        i += 1;
    }
    proof {
        assert(fs@.take(n as int) =~= fs@);
    }
    combined
}

/// What taking in `fragment` makes of the pieces kept so far, and the payload it completes.
/// The first piece of a message is kept. Each further piece joins the kept ones, all put in
/// order of id; when that makes as many pieces as the message has, the message's pieces are
/// dropped and their payloads, joined in order of id, are given back.
pub open spec fn receive_step(before: Map<u128, Seq<MessageFragment>>, fragment: MessageFragment) -> (
    Map<u128, Seq<MessageFragment>>,
    Option<Seq<u8>>,
) {
    let key = fragment.uuid;
    if !before.contains_key(key) {
        (before.insert(key, seq![fragment]), None)
    } else {
        let list = sort_by_id(before[key].push(fragment));
        if list.len() == fragment.pieces {
            (before.remove(key), Some(joined_payloads(list)))
        } else {
            (before.insert(key, list), None)
        }
    }
}

/// The pieces received so far of messages not yet complete, by message id.
pub struct FragmentBuffer {
    fragments: HashMap<u128, Vec<MessageFragment>>,
}

impl FragmentBuffer {
    /// For each incomplete message, the pieces received so far.
    pub closed spec fn pending(&self) -> Map<u128, Seq<MessageFragment>> {
        self.fragments@.map_values(|v: Vec<MessageFragment>| v@)
    }

    pub fn new() -> (r: FragmentBuffer)
        ensures
            r.pending() == Map::<u128, Seq<MessageFragment>>::empty(),
    {
        let r = FragmentBuffer { fragments: HashMap::new() };
        assert(r.pending() =~= Map::<u128, Seq<MessageFragment>>::empty());
        r
    }

    /// Takes in one piece. The first piece of a message is kept. Each further piece joins the
    /// kept ones, all put in order of id; when that makes as many pieces as the message has,
    /// the message's pieces are dropped and their payloads are returned joined in order of id.
    pub fn receive(&mut self, fragment: MessageFragment) -> (r: Option<Vec<u8>>)
        ensures
            final(self).pending() == receive_step(old(self).pending(), fragment).0,
            match r {
                Some(bytes) => receive_step(old(self).pending(), fragment).1 == Some(bytes@),
                None => receive_step(old(self).pending(), fragment).1 is None,
            },
    {
        broadcast use vstd::std_specs::hash::group_hash_axioms;

        let key = fragment.uuid;
        let ghost before = self.fragments@;
        match self.fragments.remove(&key) {
            None => {
                let pieces = vec![fragment];
                proof {
                    assert(pieces@ =~= seq![fragment]);
                    assert(self.fragments@ == before);
                }
                self.fragments.insert(key, pieces);
                proof {
                    assert(self.pending() =~= old(self).pending().insert(key, seq![fragment]));
                }
                None
            },
            Some(previous) => {
                let pieces_expected = fragment.pieces;
                let ghost kept = previous@;
                let mut list = sort_fragments(previous);
                insert_fragment(&mut list, fragment);
                proof {
                    assert(kept.push(fragment).drop_last() =~= kept);
                    assert(list@ == sort_by_id(kept.push(fragment)));
                }
                if list.len() == pieces_expected {
                    let combined = join_fragments(&list);
                    proof {
                        assert(self.pending() =~= old(self).pending().remove(key));
                    }
                    Some(combined)
                } else {
                    self.fragments.insert(key, list);
                    proof {
                        assert(self.pending() =~= old(self).pending().insert(key, list@));
                    }
                    None
                }
            },
        }
    }
}

/// Pieces cut from one payload and delivered in order of id come back together as the
/// payload: each piece but the last is kept (the kept pieces stay in order), and the last one
/// completes the message with the joined payloads, which are the payload.
pub proof fn lemma_in_order_delivery(payload: Seq<u8>, size: nat, fs: Seq<MessageFragment>, k: int)
    requires
        size > 0,
        payload.len() > 0,
        fs.len() == piece_count(payload.len(), size),
        forall|i: int|
            0 <= i < fs.len() ==> (#[trigger] fs[i]).id == i && fs[i].pieces == fs.len()
                && fs[i].payload@ == payload.subrange(
                i * size,
                if i * size + size <= payload.len() { i * size + size } else { payload.len() as int },
            ),
        1 <= k < fs.len(),
    ensures
        sort_by_id(fs.take(k).push(fs[k])) == fs.take(k + 1),
        (fs.take(k + 1).len() == fs[k].pieces) <==> (k + 1 == fs.len()),
        k + 1 == fs.len() ==> joined_payloads(fs.take(k + 1)) == payload,
{
    let t = fs.take(k);
    assert(ids_ascending(t)) by {
        assert forall|i: int, j: int| 0 <= i <= j < t.len() implies (#[trigger] t[i]).id <= (#[trigger] t[j]).id by {
            assert(t[i] == fs[i] && t[j] == fs[j]);
        }
    }
    lemma_sorted_is_fixed(t);
    assert(t.push(fs[k]).drop_last() =~= t);
    assert(t.last() == fs[k - 1]);
    assert(t.push(fs[k]) =~= fs.take(k + 1));
    if k + 1 == fs.len() {
        assert(fs.take(k + 1) =~= fs);
        lemma_fragments_join(payload, size, fs);
    }
}

/// Placing a piece keeps every piece already there and adds the one placed.
proof fn lemma_insert_by_id_multiset(s: Seq<MessageFragment>, f: MessageFragment)
    ensures
        insert_by_id(s, f).to_multiset() == s.to_multiset().insert(f),
        insert_by_id(s, f).len() == s.len() + 1,
    decreases s.len(),
{
    broadcast use vstd::seq_lib::group_to_multiset_ensures;
    broadcast use vstd::multiset::group_multiset_axioms;

    if s.len() > 0 && s.last().id > f.id {
        let d = s.drop_last();
        lemma_insert_by_id_multiset(d, f);
        assert(d.push(s.last()) =~= s);
        assert(insert_by_id(s, f).to_multiset() =~= s.to_multiset().insert(f));
    }
}

/// Placing a piece into pieces in order of id leaves them in order of id.
proof fn lemma_insert_by_id_ascending(s: Seq<MessageFragment>, f: MessageFragment)
    requires
        ids_ascending(s),
    ensures
        ids_ascending(insert_by_id(s, f)),
    decreases s.len(),
{
    broadcast use vstd::seq_lib::group_to_multiset_ensures;
    broadcast use vstd::multiset::group_multiset_axioms;

    if s.len() == 0 || s.last().id <= f.id {
        let r = s.push(f);
        assert forall|i: int, j: int| 0 <= i <= j < r.len() implies (#[trigger] r[i]).id <= (#[trigger] r[j]).id by {
            if j == s.len() && i < s.len() {
                assert(s[i].id <= s[s.len() - 1].id);
            }
        }
    } else {
        let d = s.drop_last();
        let last = s.last();
        assert(ids_ascending(d)) by {
            assert forall|i: int, j: int| 0 <= i <= j < d.len() implies (#[trigger] d[i]).id <= (#[trigger] d[j]).id by {
                assert(d[i] == s[i] && d[j] == s[j]);
            }
        }
        lemma_insert_by_id_ascending(d, f);
        lemma_insert_by_id_multiset(d, f);
        let t = insert_by_id(d, f);
        assert forall|i: int| 0 <= i < t.len() implies (#[trigger] t[i]).id <= last.id by {
            assert(t.contains(t[i]));
            assert(t.to_multiset().count(t[i]) > 0);
            if t[i] != f {
                assert(d.to_multiset().count(t[i]) > 0);
                assert(d.contains(t[i]));
                let k = choose|k: int| 0 <= k < d.len() && d[k] == t[i];
                assert(s[k] == d[k]);
                assert(s[k].id <= s[s.len() - 1].id);
            }
        }
        let r = t.push(last);
        assert forall|i: int, j: int| 0 <= i <= j < r.len() implies (#[trigger] r[i]).id <= (#[trigger] r[j]).id by {
            if j == t.len() && i < t.len() {
                assert(r[i] == t[i]);
            } else if j < t.len() {
                assert(r[i] == t[i] && r[j] == t[j]);
            }
        }
    }
}

/// Sorting by id puts the pieces in order of id and keeps exactly the pieces given.
pub proof fn lemma_sort_by_id_sorts(s: Seq<MessageFragment>)
    ensures
        ids_ascending(sort_by_id(s)),
        sort_by_id(s).to_multiset() == s.to_multiset(),
        sort_by_id(s).len() == s.len(),
    decreases s.len(),
{
    broadcast use vstd::seq_lib::group_to_multiset_ensures;

    if s.len() > 0 {
        let d = s.drop_last();
        lemma_sort_by_id_sorts(d);
        lemma_insert_by_id_ascending(sort_by_id(d), s.last());
        lemma_insert_by_id_multiset(sort_by_id(d), s.last());
        assert(d.push(s.last()) =~= s);
    }
}

/// Pieces in order of id are the only such ordering of their elements when the ids of `y`
/// strictly increase.
proof fn lemma_ascending_unique(x: Seq<MessageFragment>, y: Seq<MessageFragment>)
    requires
        ids_ascending(x),
        forall|i: int, j: int| 0 <= i < j < y.len() ==> (#[trigger] y[i]).id < (#[trigger] y[j]).id,
        x.to_multiset() == y.to_multiset(),
    ensures
        x == y,
    decreases x.len(),
{
    broadcast use vstd::seq_lib::group_to_multiset_ensures;
    broadcast use vstd::multiset::group_multiset_axioms;

    assert(x.len() == x.to_multiset().len());
    assert(y.len() == y.to_multiset().len());
    if x.len() > 0 {
        assert(x.to_multiset().count(y[0]) > 0);
        assert(x.contains(y[0]));
        let i = choose|i: int| 0 <= i < x.len() && x[i] == y[0];
        assert(y.to_multiset().count(x[0]) > 0);
        assert(y.contains(x[0]));
        let j = choose|j: int| 0 <= j < y.len() && y[j] == x[0];
        assert(x[0].id <= x[i].id);
        if j > 0 {
            assert(y[0].id < y[j].id);
        }
        assert(j == 0);
        assert(x[0] == y[0]);
        let xd = x.drop_first();
        let yd = y.drop_first();
        assert(x.subrange(1, x.len() as int) =~= xd);
        assert(xd.to_multiset() =~= x.to_multiset().remove(x[0])) by {
            assert(x.remove(0) =~= xd);
        }
        assert(yd.to_multiset() =~= y.to_multiset().remove(y[0])) by {
            assert(y.remove(0) =~= yd);
        }
        assert(ids_ascending(xd)) by {
            assert forall|a: int, b: int| 0 <= a <= b < xd.len() implies (#[trigger] xd[a]).id <= (#[trigger] xd[b]).id by {
                assert(xd[a] == x[a + 1] && xd[b] == x[b + 1]);
            }
        }
        assert forall|a: int, b: int| 0 <= a < b < yd.len() implies (#[trigger] yd[a]).id < (#[trigger] yd[b]).id by {
            assert(yd[a] == y[a + 1] && yd[b] == y[b + 1]);
        }
        lemma_ascending_unique(xd, yd);
        assert(x =~= y) by {
            assert forall|k: int| 0 <= k < x.len() implies x[k] == y[k] by {
                if k > 0 {
                    assert(x[k] == xd[k - 1] && y[k] == yd[k - 1]);
                }
            }
        }
    } else {
        assert(x =~= y);
    }
}

/// Pieces cut from one payload come back together as the payload whatever order they arrive
/// in (`arrived` holds the same pieces as `fs`, in any order): the first piece is kept alone;
/// joining the kept pieces, in order of id, with each further piece gives all the pieces
/// arrived so far in order of id; the message completes exactly when the last piece arrives;
/// and the joined payloads are then the payload.
pub proof fn lemma_any_order_delivery(
    payload: Seq<u8>,
    size: nat,
    fs: Seq<MessageFragment>,
    arrived: Seq<MessageFragment>,
    k: int,
)
    requires
        size > 0,
        payload.len() > 0,
        fs.len() == piece_count(payload.len(), size),
        forall|i: int|
            0 <= i < fs.len() ==> (#[trigger] fs[i]).id == i && fs[i].pieces == fs.len()
                && fs[i].payload@ == payload.subrange(
                i * size,
                if i * size + size <= payload.len() { i * size + size } else { payload.len() as int },
            ),
        arrived.to_multiset() == fs.to_multiset(),
        1 <= k < fs.len(),
    ensures
        sort_by_id(arrived.take(1)) == seq![arrived[0]],
        sort_by_id(sort_by_id(arrived.take(k)).push(arrived[k])) == sort_by_id(arrived.take(k + 1)),
        (sort_by_id(arrived.take(k + 1)).len() == arrived[k].pieces) <==> (k + 1 == fs.len()),
        k + 1 == fs.len() ==> joined_payloads(sort_by_id(arrived.take(k + 1))) == payload,
{
    broadcast use vstd::seq_lib::group_to_multiset_ensures;

    assert(arrived.len() == fs.len()) by {
        assert(arrived.len() == arrived.to_multiset().len());
        assert(fs.len() == fs.to_multiset().len());
    }
    let one = arrived.take(1);
    assert(one.drop_last() =~= Seq::<MessageFragment>::empty());
    assert(sort_by_id(one.drop_last()) =~= Seq::<MessageFragment>::empty());
    assert(sort_by_id(one) =~= seq![arrived[0]]);

    let t = arrived.take(k);
    lemma_sort_by_id_sorts(t);
    lemma_sorted_is_fixed(sort_by_id(t));
    assert(sort_by_id(t).push(arrived[k]).drop_last() =~= sort_by_id(t));
    assert(t.push(arrived[k]) =~= arrived.take(k + 1));
    assert(t.push(arrived[k]).drop_last() =~= t);

    lemma_sort_by_id_sorts(arrived.take(k + 1));
    assert(arrived.contains(arrived[k]));
    assert(fs.to_multiset().count(arrived[k]) > 0);
    assert(fs.contains(arrived[k]));
    let j = choose|j: int| 0 <= j < fs.len() && fs[j] == arrived[k];
    assert(arrived[k].pieces == fs.len());

    if k + 1 == fs.len() {
        assert(arrived.take(k + 1) =~= arrived);
        assert forall|a: int, b: int| 0 <= a < b < fs.len() implies (#[trigger] fs[a]).id < (#[trigger] fs[b]).id by {
        }
        lemma_ascending_unique(sort_by_id(arrived), fs);
        lemma_fragments_join(payload, size, fs);
    }
}

/// The pieces of one message, cut from `payload`, all carrying the message id `u`.
pub open spec fn pieces_of(payload: Seq<u8>, size: nat, fs: Seq<MessageFragment>, u: u128) -> bool {
    &&& size > 0
    &&& payload.len() > 0
    &&& fs.len() == piece_count(payload.len(), size)
    &&& forall|i: int|
        0 <= i < fs.len() ==> (#[trigger] fs[i]).id == i && fs[i].pieces == fs.len() && fs[i].uuid == u
            && fs[i].payload@ == payload.subrange(
            i * size,
            if i * size + size <= payload.len() { i * size + size } else { payload.len() as int },
        )
}

proof fn lemma_arrived_piece(fs: Seq<MessageFragment>, arrived: Seq<MessageFragment>, k: int)
    requires
        arrived.to_multiset() == fs.to_multiset(),
        0 <= k < fs.len(),
    ensures
        arrived.len() == fs.len(),
        exists|j: int| 0 <= j < fs.len() && fs[j] == arrived[k],
{
    broadcast use vstd::seq_lib::group_to_multiset_ensures;

    assert(arrived.len() == arrived.to_multiset().len());
    assert(fs.len() == fs.to_multiset().len());
    assert(arrived.contains(arrived[k]));
    assert(fs.to_multiset().count(arrived[k]) > 0);
    assert(fs.contains(arrived[k]));
}

/// After the first `k` of the pieces have come (all but the last), the buffer keeps them in
/// order of id beside what it held before, and none of those calls gave a payload back.
proof fn lemma_delivery_prefix(
    payload: Seq<u8>,
    size: nat,
    fs: Seq<MessageFragment>,
    u: u128,
    arrived: Seq<MessageFragment>,
    states: Seq<Map<u128, Seq<MessageFragment>>>,
    outs: Seq<Option<Seq<u8>>>,
    k: int,
)
    requires
        pieces_of(payload, size, fs, u),
        fs.len() >= 2,
        arrived.to_multiset() == fs.to_multiset(),
        states.len() == fs.len() + 1,
        outs.len() == fs.len(),
        !states[0].contains_key(u),
        forall|i: int| 0 <= i < fs.len() ==> (states[i + 1], outs[i]) == receive_step(#[trigger] states[i], arrived[i]),
        1 <= k < fs.len(),
    ensures
        states[k] == states[0].insert(u, sort_by_id(arrived.take(k))),
        forall|i: int| 0 <= i < k ==> (#[trigger] outs[i]) is None,
    decreases k,
{
    lemma_arrived_piece(fs, arrived, k - 1);
    let j = choose|j: int| 0 <= j < fs.len() && fs[j] == arrived[k - 1];
    assert(arrived[k - 1].uuid == u);
    if k == 1 {
        lemma_any_order_delivery(payload, size, fs, arrived, 1);
        assert(states[1] == receive_step(states[0], arrived[0]).0);
    } else {
        lemma_delivery_prefix(payload, size, fs, u, arrived, states, outs, k - 1);
        lemma_any_order_delivery(payload, size, fs, arrived, k - 1);
        assert(arrived[k - 1].pieces == fs.len());
        assert(states[k - 1].contains_key(u));
        assert(states[k - 1][u] == sort_by_id(arrived.take(k - 1)));
        assert(states[k] == receive_step(states[k - 1], arrived[k - 1]).0);
        assert(states[k] =~= states[0].insert(u, sort_by_id(arrived.take(k))));
        assert forall|i: int| 0 <= i < k implies (#[trigger] outs[i]) is None by {
            if i == k - 1 {
                assert(outs[k - 1] == receive_step(states[k - 1], arrived[k - 1]).1);
            }
        }
    }
}

/// Pieces of one message taken in one per call, in any order, by a buffer that held none of
/// its pieces: no call but the last gives anything back, the last gives back the payload the
/// pieces were cut from, and the buffer then holds what it held before.
pub proof fn lemma_delivery_over_calls(
    payload: Seq<u8>,
    size: nat,
    fs: Seq<MessageFragment>,
    u: u128,
    arrived: Seq<MessageFragment>,
    states: Seq<Map<u128, Seq<MessageFragment>>>,
    outs: Seq<Option<Seq<u8>>>,
)
    requires
        pieces_of(payload, size, fs, u),
        fs.len() >= 2,
        arrived.to_multiset() == fs.to_multiset(),
        states.len() == fs.len() + 1,
        outs.len() == fs.len(),
        !states[0].contains_key(u),
        forall|i: int| 0 <= i < fs.len() ==> (states[i + 1], outs[i]) == receive_step(#[trigger] states[i], arrived[i]),
    ensures
        forall|i: int| 0 <= i < fs.len() - 1 ==> (#[trigger] outs[i]) is None,
        outs[fs.len() - 1] == Some(payload),
        states[fs.len() as int] == states[0],
{
    let n = fs.len() as int;
    lemma_delivery_prefix(payload, size, fs, u, arrived, states, outs, n - 1);
    lemma_any_order_delivery(payload, size, fs, arrived, n - 1);
    lemma_arrived_piece(fs, arrived, n - 1);
    let j = choose|j: int| 0 <= j < fs.len() && fs[j] == arrived[n - 1];
    assert(arrived[n - 1].uuid == u);
    assert(arrived[n - 1].pieces == n);
    assert(states[n - 1].contains_key(u));
    assert(states[n] == receive_step(states[n - 1], arrived[n - 1]).0);
    assert(outs[n - 1] == receive_step(states[n - 1], arrived[n - 1]).1);
    assert(states[n] =~= states[0]);
}

/// What snap's raw encoder (`snap::raw::Encoder::compress_vec`) makes of `input`.
pub uninterp spec fn snap_compressed(input: Seq<u8>) -> Seq<u8>;

/// What snap's raw decoder (`snap::raw::Decoder::decompress_vec`) makes of `input`, or
/// `None` where it refuses it.
pub uninterp spec fn snap_decompressed(input: Seq<u8>) -> Option<Seq<u8>>;

/// The encoder accepts inputs whose worst-case compressed size fits in 32 bits.
pub open spec fn compressible(len: int) -> bool {
    &&& len <= 0xFFFF_FFFF
    &&& 32 + len + len / 6 <= 0xFFFF_FFFF
}

/// Calls `snap::raw::Encoder::compress_vec` on a fresh encoder. Trusted to fail exactly when
/// the input is too large for the encoder (as `max_compress_len` decides), and otherwise to
/// give a result that depends on the input alone and is no longer than that worst-case size;
/// the compressed bytes themselves are not described.
#[verifier::external_body]
fn compress_bytes(input: &[u8]) -> (r: Option<Vec<u8>>)
    ensures
        r.is_some() <==> compressible(input@.len() as int),
        r matches Some(v) ==> v@ == snap_compressed(input@),
        r matches Some(v) ==> v@.len() <= 32 + input@.len() + input@.len() / 6,
{
    snap::raw::Encoder::new().compress_vec(input).ok()
}

/// Calls `snap::raw::Decoder::decompress_vec`. Trusted to give a result that depends on the
/// input alone; which inputs it accepts and what it makes of them is not described.
#[verifier::external_body]
fn decompress_bytes(input: &[u8]) -> (r: Option<Vec<u8>>)
    ensures
        r.is_some() <==> snap_decompressed(input@).is_some(),
        r matches Some(v) ==> v@ == snap_decompressed(input@).unwrap(),
{
    snap::raw::Decoder::new().decompress_vec(input).ok()
}

/// The pieces `fs` are `payload` cut into pieces of `size` bytes, all tagged with the
/// payload's message id.
pub open spec fn fragments_of(payload: Seq<u8>, size: nat, fs: Seq<MessageFragment>) -> bool {
    &&& fs.len() == piece_count(payload.len(), size)
    &&& forall|i: int|
        0 <= i < fs.len() ==> {
            &&& (#[trigger] fs[i]).uuid as int == be_value(payload.subrange(0, 16))
            &&& fs[i].id == i
            &&& fs[i].size == size
            &&& fs[i].pieces == fs.len()
            &&& fs[i].payload@ == payload.subrange(
                i * size,
                if i * size + size <= payload.len() { i * size + size } else { payload.len() as int },
            )
        }
}

/// A message ready to send: whole, or cut into pieces.
pub enum Outgoing {
    Whole(Vec<u8>),
    Fragments(Vec<MessageFragment>),
}

/// Compresses an encoded message and, if the result is larger than `size` bytes (the room
/// a packet leaves for it), cuts it into pieces. A payload that must be cut has to hold the
/// 16 bytes its message id is read from.
pub fn prepare_outgoing(message: &Vec<u8>, size: usize) -> (r: Outgoing)
    requires
        compressible(message@.len() as int),
        size > 0,
        snap_compressed(message@).len() > size ==> snap_compressed(message@).len() >= 16,
    ensures
        match r {
            Outgoing::Whole(v) => snap_compressed(message@).len() <= size && v@ == snap_compressed(message@),
            Outgoing::Fragments(fs) => snap_compressed(message@).len() > size && fragments_of(
                snap_compressed(message@),
                size as nat,
                fs@,
            ),
        },
{
    let payload = match compress_bytes(message.as_slice()) {
        Some(p) => p,
        None => {
            proof {
                assert(false);
            }
            Vec::new()
        },
    };
    if payload.len() > size {
        Outgoing::Fragments(fragment_payload(&payload, size))
    } else {
        Outgoing::Whole(payload)
    }
}

/// Prepares a message as `prepare_outgoing` does, after testing that its compressed payload,
/// where it must be cut, holds the 16 bytes of a message id; `None` exactly where it does not.
pub fn try_prepare_outgoing(message: &Vec<u8>, size: usize) -> (r: Option<Outgoing>)
    requires
        compressible(message@.len() as int),
        size > 0,
    ensures
        r.is_none() <==> (snap_compressed(message@).len() > size && snap_compressed(message@).len() < 16),
        match r {
            Some(Outgoing::Whole(v)) => snap_compressed(message@).len() <= size && v@ == snap_compressed(message@),
            Some(Outgoing::Fragments(fs)) => snap_compressed(message@).len() > size && fragments_of(
                snap_compressed(message@),
                size as nat,
                fs@,
            ),
            None => true,
        },
{
    let len = match compress_message(message) {
        Some(c) => c.len(),
        None => {
            proof {
                assert(false);
            }
            0
        },
    };
    if len > size && len < 16 {
        None
    } else {
        Some(prepare_outgoing(message, size))
    }
}

/// Compresses an encoded message to travel whole: refused (`None`) exactly where it is too
/// large for the encoder.
pub fn compress_message(message: &Vec<u8>) -> (r: Option<Vec<u8>>)
    ensures
        r.is_some() <==> compressible(message@.len() as int),
        r matches Some(v) ==> v@ == snap_compressed(message@),
{
    compress_bytes(message.as_slice())
}

/// Decompresses a message received whole.
pub fn decompress_message(bytes: &Vec<u8>) -> (r: Option<Vec<u8>>)
    ensures
        r.is_some() <==> snap_decompressed(bytes@).is_some(),
        r matches Some(v) ==> v@ == snap_decompressed(bytes@).unwrap(),
{
    decompress_bytes(bytes.as_slice())
}

/// What taking in one piece came to.
pub enum Reassembly {
    /// The message is not complete yet.
    Pending,
    /// The message is complete and these are its decompressed bytes.
    Complete(Vec<u8>),
    /// The message is complete but its joined payloads do not decompress.
    Corrupt,
}

impl FragmentBuffer {
    /// Takes in one piece of a compressed message; once the message is complete, decompresses
    /// its joined payloads.
    pub fn receive_compressed(&mut self, fragment: MessageFragment) -> (r: Reassembly)
        ensures
            final(self).pending() == receive_step(old(self).pending(), fragment).0,
            match receive_step(old(self).pending(), fragment).1 {
                None => r is Pending,
                Some(joined) => match snap_decompressed(joined) {
                    Some(bytes) => r matches Reassembly::Complete(v) && v@ == bytes,
                    None => r is Corrupt,
                },
            },
    {
        match self.receive(fragment) {
            None => Reassembly::Pending,
            Some(combined) => match decompress_bytes(combined.as_slice()) {
                Some(bytes) => Reassembly::Complete(bytes),
                None => Reassembly::Corrupt,
            },
        }
    }
}


/// What the server learns from its connections, by the id of the client concerned.
#[derive(Debug, Clone, Copy, PartialEq, Eq, Structural)]
pub enum ServerEvent {
    Connection(u32),
    /// A message arrived; its decoded message type says how to pass it on.
    Message(u32, MessageType),
    ConnectionClosed(u32),
    ConnectionLost(u32),
    PacketLost(u32),
    CongestionStateChanged(u32),
}

/// What the server sends to every connected client.
#[derive(Debug, Clone, Copy, PartialEq, Eq, Structural)]
pub enum Broadcast {
    NewConnection(NewConnection),
    Disconnection(Disconnection),
    /// The message that arrived, passed on as it is.
    Relay,
}

/// A broadcast together with how it travels.
#[derive(Debug, Clone, Copy, PartialEq, Eq, Structural)]
pub struct BroadcastMessage {
    pub data: Broadcast,
    pub message_type: MessageType,
}

/// The server's answer to one event.
#[derive(Debug, Clone, Copy, PartialEq, Eq, Structural)]
pub struct ServerResponse {
    /// What to send to every connection, and how.
    pub broadcast: Option<BroadcastMessage>,
    /// The client that the game state has to greet.
    pub on_client_connected: Option<OnClientConnected>,
    /// Whether the server shuts down.
    pub close: bool,
}

/// The server's answer to `event`, with `open_connections` connections left: a new client is
/// announced to everyone, reliably, and greeted; a message is passed on to everyone with its
/// own message type; a client that leaves is announced to everyone, reliably, and the server
/// closes once no connection is left; lost packets and congestion change nothing.
pub fn server_response(event: ServerEvent, open_connections: usize) -> (r: ServerResponse)
    ensures
        match event {
            ServerEvent::Connection(id) => r == (ServerResponse {
                broadcast: Some(BroadcastMessage { data: Broadcast::NewConnection(NewConnection(id)), message_type: MessageType::Reliable }),
                on_client_connected: Some(OnClientConnected(id)),
                close: false,
            }),
            ServerEvent::Message(_, kind) => r == (ServerResponse {
                broadcast: Some(BroadcastMessage { data: Broadcast::Relay, message_type: kind }),
                on_client_connected: None,
                close: false,
            }),
            ServerEvent::ConnectionClosed(id) | ServerEvent::ConnectionLost(id) => r == (ServerResponse {
                broadcast: Some(BroadcastMessage { data: Broadcast::Disconnection(Disconnection(id)), message_type: MessageType::Reliable }),
                on_client_connected: None,
                close: open_connections == 0,
            }),
            ServerEvent::PacketLost(_) | ServerEvent::CongestionStateChanged(_) => r == (ServerResponse {
                broadcast: None,
                on_client_connected: None,
                close: false,
            }),
        },
{
    match event {
        ServerEvent::Connection(id) => ServerResponse {
            broadcast: Some(BroadcastMessage { data: Broadcast::NewConnection(NewConnection::new(id)), message_type: MessageType::Reliable }),
            on_client_connected: Some(OnClientConnected::new(id)),
            close: false,
        },
        ServerEvent::Message(_, kind) => ServerResponse {
            broadcast: Some(BroadcastMessage { data: Broadcast::Relay, message_type: kind }),
            on_client_connected: None,
            close: false,
        },
        ServerEvent::ConnectionClosed(id) | ServerEvent::ConnectionLost(id) => ServerResponse {
            broadcast: Some(BroadcastMessage { data: Broadcast::Disconnection(Disconnection::new(id)), message_type: MessageType::Reliable }),
            on_client_connected: None,
            close: open_connections == 0,
        },
        ServerEvent::PacketLost(_) | ServerEvent::CongestionStateChanged(_) => ServerResponse {
            broadcast: None,
            on_client_connected: None,
            close: false,
        },
    }
}

/// What a client learns from its connection to the server.
#[derive(Debug, Clone, Copy, PartialEq, Eq, Structural)]
pub enum ClientEvent {
    /// The connection is up; the server knows this client by the given id.
    Connection(u32),
    Message,
    ConnectionClosed,
    ConnectionLost,
    PacketLost,
    CongestionStateChanged,
}

/// What a client does about one event.
#[derive(Debug, Clone, Copy, PartialEq, Eq, Structural)]
pub enum ClientAction {
    /// Take on the id the server gave.
    SetClientID(u32),
    /// Decode the message and hand it to the game.
    HandleMessage,
    /// Drop the connection.
    Disconnect,
    Nothing,
}

/// The client's answer to `event`.
pub fn client_response(event: ClientEvent) -> (r: ClientAction)
    ensures
        match event {
            ClientEvent::Connection(id) => r == ClientAction::SetClientID(id),
            ClientEvent::Message => r == ClientAction::HandleMessage,
            ClientEvent::ConnectionClosed | ClientEvent::ConnectionLost => r == ClientAction::Disconnect,
            ClientEvent::PacketLost | ClientEvent::CongestionStateChanged => r == ClientAction::Nothing,
        },
{
    match event {
        ClientEvent::Connection(id) => ClientAction::SetClientID(id),
        ClientEvent::Message => ClientAction::HandleMessage,
        ClientEvent::ConnectionClosed | ClientEvent::ConnectionLost => ClientAction::Disconnect,
        ClientEvent::PacketLost | ClientEvent::CongestionStateChanged => ClientAction::Nothing,
    }
}


/// The connection that a message queued by the server for client `client_id` goes out on:
/// that client's own connection, where it is open among `open`; otherwise the message is
/// dropped.
pub fn route_queued(client_id: u32, open: &Vec<u32>) -> (r: Option<u32>)
    ensures
        r == (if open@.contains(client_id) { Some(client_id) } else { None::<u32> }),
{
    let n = open.len();
    let mut i: usize = 0;
    while i < n
        invariant
            n == open@.len(),
            i <= n,
            forall|k: int| 0 <= k < i ==> open@[k] != client_id,
        decreases n - i,
    {
        if open[i] == client_id {
            assert(open@[i as int] == client_id);
            return Some(client_id);
        }
        i += 1;
    }
    None
}

} // verus!
