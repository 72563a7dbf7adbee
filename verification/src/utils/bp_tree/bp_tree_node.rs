use vstd::prelude::*;
use vstd::bytes::lemma_auto_spec_u64_to_from_le_bytes;
use vstd::bytes::spec_u64_from_le_bytes;
use vstd::bytes::spec_u64_to_le_bytes;
use zerocopy::FromBytes;
use zerocopy::IntoBytes;
use zerocopy::little_endian::U64;

verus! {

/// The size of a node's header in bytes.
pub const HEADER_SIZE: usize = 24;

/// The `next` of a node that has no sibling.
pub const NO_BLOCK: u64 = 0xffff_ffff_ffff_ffff;

/// The header of a node: whether it is a leaf, how many keys it holds, and
/// the block of its right sibling.
#[derive(Debug, Clone, Copy, PartialEq, Eq)]
pub struct NodeHeader {
    pub is_leaf: u8,
    pub num_keys: u64,
    pub next: u64,
}

impl NodeHeader {
    /// A header with no sibling.
    pub fn new(is_leaf: bool, num_keys: u64) -> (h: Self)
        ensures
            h.is_leaf == (if is_leaf {
                1u8
            } else {
                0u8
            }),
            h.num_keys == num_keys,
            h.next == NO_BLOCK,
    {
        Self {
            is_leaf: if is_leaf {
                1
            } else {
                0
            },
            num_keys,
            next: NO_BLOCK,
        }
    }
}

/// Why a block cannot be read as a node.
#[derive(Debug, Clone, Copy, PartialEq, Eq)]
pub enum NodeParseError {
    HeaderAligenment,
    HeaderSize,
    KvsAligenment,
    KvsSize,
}

/// The little-endian 64-bit word at byte `off` of `bytes`.
pub open spec fn word(bytes: Seq<u8>, off: int) -> u64 {
    spec_u64_from_le_bytes(bytes.subrange(off, off + 8))
}

/// Where key slot `i` starts.
pub open spec fn key_off(i: int) -> int {
    24 + 8 * i
}

/// Where value slot `i` starts in a node of fan-out `m`.
pub open spec fn val_off(m: int, i: int) -> int {
    24 + 8 * m + 8 * i
}

/// A block read as a node of fan-out `m`: the header, `m` key slots and
/// `m + 1` value slots.
pub struct NodeImage {
    pub is_leaf: u8,
    pub num_keys: u64,
    pub next: u64,
    pub keys: Seq<u64>,
    pub vals: Seq<u64>,
}

/// The node that `bytes` hold.
pub open spec fn image(bytes: Seq<u8>, m: nat) -> NodeImage {
    NodeImage {
        is_leaf: bytes[0],
        num_keys: word(bytes, 8),
        next: word(bytes, 16),
        keys: Seq::new(m, |i: int| word(bytes, key_off(i))),
        vals: Seq::new(m + 1, |i: int| word(bytes, val_off(m as int, i))),
    }
}

/// The `2 * m + 1` words behind the header: first the key slots, then the
/// value slots.
pub open spec fn slots(bytes: Seq<u8>, m: nat) -> Seq<u64> {
    Seq::new(2 * m + 1, |w: int| word(bytes, 24 + 8 * w))
}

/// The key slots are the first `m` words behind the header, the value slots
/// the `m + 1` words after them.
pub proof fn lemma_slots(bytes: Seq<u8>, m: nat)
    ensures
        image(bytes, m).keys == slots(bytes, m).subrange(0, m as int),
        image(bytes, m).vals == slots(bytes, m).subrange(m as int, 2 * m as int + 1),
        forall|i: int| 0 <= i < m ==> #[trigger] image(bytes, m).keys[i] == slots(bytes, m)[i],
        forall|i: int| 0 <= i <= m ==> #[trigger] image(bytes, m).vals[i] == slots(bytes, m)[m + i],
{
    assert(image(bytes, m).keys =~= slots(bytes, m).subrange(0, m as int));
    assert(image(bytes, m).vals =~= slots(bytes, m).subrange(m as int, 2 * m as int + 1));
}

/// What reading `len` bytes as a node of fan-out `m` gives: the header has to
/// fit, the rest has to be whole words, and there have to be `m` key slots
/// and `m + 1` value slots.
pub open spec fn parse_outcome(len: nat, m: u64) -> Result<(), NodeParseError> {
    if len < 24 {
        Err(NodeParseError::HeaderSize)
    } else if (len - 24) % 8 != 0 {
        Err(NodeParseError::HeaderSize)
    } else if (len - 24) / 8 < 2 * m + 1 {
        Err(NodeParseError::KvsSize)
    } else {
        Ok(())
    }
}

/// `len` bytes hold a node of fan-out `m`.
pub open spec fn well_sized(len: nat, m: u64) -> bool {
    parse_outcome(len, m) is Ok
}

/// A block that holds a node of fan-out `m` has room for the header, `m` keys
/// and `m + 1` values.
pub proof fn lemma_well_sized(len: nat, m: u64)
    requires
        well_sized(len, m),
    ensures
        32 + 16 * m <= len,
{
}

/// `bytes` with the eight bytes at `off` replaced by the word `v`.
pub open spec fn stored(bytes: Seq<u8>, off: int, v: u64) -> Seq<u8> {
    bytes.subrange(0, off) + spec_u64_to_le_bytes(v) + bytes.subrange(off + 8, bytes.len() as int)
}

/// A stored word reads back, and leaves the bytes around it as they were.
pub proof fn lemma_stored(bytes: Seq<u8>, off: int, v: u64)
    requires
        0 <= off,
        off + 8 <= bytes.len(),
    ensures
        stored(bytes, off, v).len() == bytes.len(),
        word(stored(bytes, off, v), off) == v,
        forall|i: int| 0 <= i < bytes.len() && !(off <= i < off + 8) ==> stored(bytes, off, v)[i] == bytes[i],
        forall|o: int|
            0 <= o && o + 8 <= bytes.len() && (o + 8 <= off || off + 8 <= o) ==> #[trigger] word(
                stored(bytes, off, v),
                o,
            ) == word(bytes, o),
{
    lemma_auto_spec_u64_to_from_le_bytes();
    let after = stored(bytes, off, v);
    assert(after.subrange(off, off + 8) =~= spec_u64_to_le_bytes(v));
    assert forall|o: int| 0 <= o && o + 8 <= bytes.len() && (o + 8 <= off || off + 8 <= o) implies #[trigger] word(
        after,
        o,
    ) == word(bytes, o) by {
        assert(after.subrange(o, o + 8) =~= bytes.subrange(o, o + 8));
    }
}

/// Reads the word at `off`, through `zerocopy::FromBytes::read_from_prefix`
/// at the type `zerocopy::little_endian::U64` and `U64::get`: the eight bytes
/// from `off` on as a little-endian number, or nothing where fewer than eight
/// bytes are left.
#[verifier::external_body]
fn read_word(bytes: &[u8], off: usize) -> (r: Option<u64>)
    requires
        off <= bytes@.len(),
    ensures
        r == (if off + 8 <= bytes@.len() {
            Some(word(bytes@, off as int))
        } else {
            None
        }),
{
    match U64::read_from_prefix(&bytes[off..]) {
        Ok((v, _)) => Some(v.get()),
        Err(_) => None,
    }
}

/// Writes `v` at `off`, through `zerocopy::little_endian::U64::new` and
/// `zerocopy::IntoBytes::write_to_prefix`: the eight bytes from `off` on
/// become the little-endian form of `v`; where fewer than eight bytes are
/// left, nothing is written and the answer is `false`.
#[verifier::external_body]
fn write_word(bytes: &mut [u8], off: usize, v: u64) -> (ok: bool)
    requires
        off <= old(bytes)@.len(),
    ensures
        ok == (off + 8 <= old(bytes)@.len()),
        ok ==> final(bytes)@ == stored(old(bytes)@, off as int, v),
        !ok ==> final(bytes)@ == old(bytes)@,
{
    U64::new(v).write_to_prefix(&mut bytes[off..]).is_ok()
}

/// Judges whether `len` bytes hold a node of fan-out `m`.
fn check_size(len: usize, m: u64) -> (r: Result<(), NodeParseError>)
    ensures
        r == parse_outcome(len as nat, m),
{
    if len < 24 {
        return Err(NodeParseError::HeaderSize);
    }
    let rest = len - 24;
    if rest % 8 != 0 {
        return Err(NodeParseError::HeaderSize);
    }
    let words = (rest / 8) as u64;
    if words == 0 || (words - 1) / 2 < m {
        return Err(NodeParseError::KvsSize);
    }
    Ok(())
}

/// The word at `off`.
fn word_at(bytes: &[u8], off: usize) -> (w: u64)
    requires
        off + 8 <= bytes@.len(),
    ensures
        w == word(bytes@, off as int),
{
    match read_word(bytes, off) {
        Some(w) => w,
        None => vstd::pervasive::unreached(),
    }
}

/// Puts the word `v` at `off`.
fn put_word(bytes: &mut [u8], off: usize, v: u64)
    requires
        off + 8 <= old(bytes)@.len(),
    ensures
        final(bytes)@ == stored(old(bytes)@, off as int, v),
        final(bytes)@.len() == old(bytes)@.len(),
{
    let _ = write_word(bytes, off, v);
    proof {
        lemma_stored(old(bytes)@, off as int, v);
    }
}

fn header_of(bytes: &[u8], m: u64) -> (h: NodeHeader)
    requires
        well_sized(bytes@.len(), m),
    ensures
        h.is_leaf == image(bytes@, m as nat).is_leaf,
        h.num_keys == image(bytes@, m as nat).num_keys,
        h.next == image(bytes@, m as nat).next,
{
    let len = bytes.len();
    proof {
        lemma_well_sized(len as nat, m);
    }
    NodeHeader { is_leaf: bytes[0], num_keys: word_at(bytes, 8), next: word_at(bytes, 16) }
}

fn key_of(bytes: &[u8], m: u64, i: u64) -> (k: u64)
    requires
        well_sized(bytes@.len(), m),
        i < m,
    ensures
        k == image(bytes@, m as nat).keys[i as int],
{
    let len = bytes.len();
    proof {
        lemma_well_sized(len as nat, m);
    }
    word_at(bytes, 24 + 8 * (i as usize))
}

fn val_of(bytes: &[u8], m: u64, i: u64) -> (v: u64)
    requires
        well_sized(bytes@.len(), m),
        i <= m,
    ensures
        v == image(bytes@, m as nat).vals[i as int],
{
    let len = bytes.len();
    proof {
        lemma_well_sized(len as nat, m);
    }
    word_at(bytes, 24 + 8 * (m as usize) + 8 * (i as usize))
}

/// A block seen as a node, for reading.
pub struct NodeView<'a> {
    pub bytes: &'a [u8],
    pub m: u64,
}

impl<'a> NodeView<'a> {
    /// The block holds a node of fan-out `m`.
    pub open spec fn wf(&self) -> bool {
        well_sized(self.bytes@.len(), self.m)
    }

    /// The node that the block holds.
    pub open spec fn image(&self) -> NodeImage {
        image(self.bytes@, self.m as nat)
    }

    /// Sees `bytes` as a node of fan-out `m`.
    pub fn get_from_bytes(bytes: &'a [u8], m: u64) -> (r: Result<Self, NodeParseError>)
        ensures
            r is Ok <==> well_sized(bytes@.len(), m),
            r matches Ok(node) ==> node.bytes@ == bytes@ && node.m == m,
            r matches Err(e) ==> parse_outcome(bytes@.len(), m) == Err::<(), NodeParseError>(e),
    {
        match check_size(bytes.len(), m) {
            Ok(()) => Ok(NodeView { bytes, m }),
            Err(e) => Err(e),
        }
    }

    /// The header.
    pub fn header(&self) -> (h: NodeHeader)
        requires
            self.wf(),
        ensures
            h.is_leaf == self.image().is_leaf,
            h.num_keys == self.image().num_keys,
            h.next == self.image().next,
    {
        header_of(self.bytes, self.m)
    }

    /// Key slot `i`.
    pub fn key(&self, i: u64) -> (k: u64)
        requires
            self.wf(),
            i < self.m,
        ensures
            k == self.image().keys[i as int],
    {
        key_of(self.bytes, self.m, i)
    }

    /// Value slot `i`.
    pub fn val(&self, i: u64) -> (v: u64)
        requires
            self.wf(),
            i <= self.m,
        ensures
            v == self.image().vals[i as int],
    {
        val_of(self.bytes, self.m, i)
    }

    /// The words behind the header.
    pub open spec fn slots(&self) -> Seq<u64> {
        slots(self.bytes@, self.m as nat)
    }

    /// Word `w` behind the header.
    pub fn slot(&self, w: u64) -> (v: u64)
        requires
            self.wf(),
            w <= 2 * self.m,
        ensures
            v == self.slots()[w as int],
    {
        let len = self.bytes.len();
        proof {
            lemma_well_sized(len as nat, self.m);
        }
        word_at(self.bytes, 24 + 8 * (w as usize))
    }
}

/// A block seen as a node, for writing: what is written through the view is
/// written to the block.
pub struct NodeViewMut<'a> {
    pub bytes: &'a mut [u8],
    pub m: u64,
}

impl<'a> NodeViewMut<'a> {
    /// The block holds a node of fan-out `m`.
    pub open spec fn wf(&self) -> bool {
        well_sized(self.bytes@.len(), self.m)
    }

    /// The node that the block holds.
    pub open spec fn image(&self) -> NodeImage {
        image(self.bytes@, self.m as nat)
    }

    /// Sees `bytes` as a node of fan-out `m`.
    pub fn get_from_bytes(bytes: &'a mut [u8], m: u64) -> (r: Result<Self, NodeParseError>)
        ensures
            r is Ok <==> well_sized(old(bytes)@.len(), m),
            r matches Ok(node) ==> node.bytes@ == old(bytes)@ && node.m == m && final(bytes)@ == final(node.bytes)@,
            r matches Err(e) ==> parse_outcome(old(bytes)@.len(), m) == Err::<(), NodeParseError>(e) && final(bytes)@
                == old(bytes)@,
    {
        match check_size(bytes.len(), m) {
            Ok(()) => Ok(NodeViewMut { bytes, m }),
            Err(e) => Err(e),
        }
    }

    /// The header.
    pub fn header(&self) -> (h: NodeHeader)
        requires
            self.wf(),
        ensures
            h.is_leaf == self.image().is_leaf,
            h.num_keys == self.image().num_keys,
            h.next == self.image().next,
    {
        header_of(&*self.bytes, self.m)
    }

    /// Key slot `i`.
    pub fn key(&self, i: u64) -> (k: u64)
        requires
            self.wf(),
            i < self.m,
        ensures
            k == self.image().keys[i as int],
    {
        key_of(&*self.bytes, self.m, i)
    }

    /// Value slot `i`.
    pub fn val(&self, i: u64) -> (v: u64)
        requires
            self.wf(),
            i <= self.m,
        ensures
            v == self.image().vals[i as int],
    {
        val_of(&*self.bytes, self.m, i)
    }

    /// The words behind the header.
    pub open spec fn slots(&self) -> Seq<u64> {
        slots(self.bytes@, self.m as nat)
    }

    /// The bytes of the block.
    pub open spec fn content(&self) -> Seq<u8> {
        self.bytes@
    }

    /// The same block, for reading.
    pub fn as_view(&self) -> (node: NodeView<'_>)
        ensures
            node.bytes@ == self.content(),
            node.m == self.m,
    {
        NodeView { bytes: &*self.bytes, m: self.m }
    }

    /// Word `w` behind the header.
    pub fn slot(&self, w: u64) -> (v: u64)
        requires
            self.wf(),
            w <= 2 * self.m,
        ensures
            v == self.slots()[w as int],
    {
        let len = self.bytes.len();
        proof {
            lemma_well_sized(len as nat, self.m);
        }
        word_at(&*self.bytes, 24 + 8 * (w as usize))
    }

    /// Replaces word `w` behind the header.
    pub fn set_slot(&mut self, w: u64, v: u64)
        requires
            old(self).wf(),
            w <= 2 * old(self).m,
        ensures
            final(self).wf(),
            final(self).m == old(self).m,
            final(self).bytes@.len() == old(self).bytes@.len(),
            final(final(self).bytes)@ == final(old(self).bytes)@,
            final(self).slots() == old(self).slots().update(w as int, v),
            final(self).image().is_leaf == old(self).image().is_leaf,
            final(self).image().num_keys == old(self).image().num_keys,
            final(self).image().next == old(self).image().next,
    {
        let len = self.bytes.len();
        proof {
            lemma_well_sized(len as nat, self.m);
            lemma_stored(self.bytes@, 24 + 8 * w, v);
        }
        put_word(self.bytes, 24 + 8 * (w as usize), v);
        proof {
            assert(slots(self.bytes@, self.m as nat) =~= old(self).slots().update(w as int, v));
        }
    }

    /// Replaces the header; the padding becomes zero.
    pub fn set_header(&mut self, h: NodeHeader)
        requires
            old(self).wf(),
        ensures
            final(self).wf(),
            final(self).m == old(self).m,
            final(self).bytes@.len() == old(self).bytes@.len(),
            final(final(self).bytes)@ == final(old(self).bytes)@,
            final(self).image() == (NodeImage {
                is_leaf: h.is_leaf,
                num_keys: h.num_keys,
                next: h.next,
                ..old(self).image()
            }),
            final(self).slots() == old(self).slots(),
            forall|i: int| 1 <= i < 8 ==> final(self).bytes@[i] == 0,
    {
        let len = self.bytes.len();
        proof {
            lemma_well_sized(len as nat, self.m);
        }
        let ghost start = self.bytes@;
        put_word(self.bytes, 0, 0);
        self.bytes[0] = h.is_leaf;
        let ghost cleared = self.bytes@;
        put_word(self.bytes, 8, h.num_keys);
        let ghost counted = self.bytes@;
        put_word(self.bytes, 16, h.next);
        proof {
            lemma_zero_word(start);
            lemma_stored(start, 0, 0);
            lemma_stored(cleared, 8, h.num_keys);
            lemma_stored(counted, 16, h.next);
            lemma_slots_kept(start, cleared, self.m as nat);
            assert(image(self.bytes@, self.m as nat).keys =~= image(start, self.m as nat).keys);
            assert(image(self.bytes@, self.m as nat).vals =~= image(start, self.m as nat).vals);
            assert(slots(self.bytes@, self.m as nat) =~= slots(start, self.m as nat));
        }
    }

    /// Replaces the number of keys.
    pub fn set_num_keys(&mut self, n: u64)
        requires
            old(self).wf(),
        ensures
            final(self).wf(),
            final(self).m == old(self).m,
            final(self).bytes@.len() == old(self).bytes@.len(),
            final(final(self).bytes)@ == final(old(self).bytes)@,
            final(self).image() == (NodeImage { num_keys: n, ..old(self).image() }),
            final(self).slots() == old(self).slots(),
    {
        let len = self.bytes.len();
        proof {
            lemma_well_sized(len as nat, self.m);
            lemma_stored(self.bytes@, 8, n);
        }
        put_word(self.bytes, 8, n);
        proof {
            assert(slots(self.bytes@, self.m as nat) =~= old(self).slots());
            assert(image(self.bytes@, self.m as nat).keys =~= old(self).image().keys);
            assert(image(self.bytes@, self.m as nat).vals =~= old(self).image().vals);
        }
    }

    /// Replaces the sibling.
    pub fn set_next(&mut self, next: u64)
        requires
            old(self).wf(),
        ensures
            final(self).wf(),
            final(self).m == old(self).m,
            final(self).bytes@.len() == old(self).bytes@.len(),
            final(final(self).bytes)@ == final(old(self).bytes)@,
            final(self).image() == (NodeImage { next, ..old(self).image() }),
            final(self).slots() == old(self).slots(),
    {
        let len = self.bytes.len();
        proof {
            lemma_well_sized(len as nat, self.m);
            lemma_stored(self.bytes@, 16, next);
        }
        put_word(self.bytes, 16, next);
        proof {
            assert(slots(self.bytes@, self.m as nat) =~= old(self).slots());
            assert(image(self.bytes@, self.m as nat).keys =~= old(self).image().keys);
            assert(image(self.bytes@, self.m as nat).vals =~= old(self).image().vals);
        }
    }

    /// Replaces key slot `i`.
    pub fn set_key(&mut self, i: u64, key: u64)
        requires
            old(self).wf(),
            i < old(self).m,
        ensures
            final(self).wf(),
            final(self).m == old(self).m,
            final(self).bytes@.len() == old(self).bytes@.len(),
            final(final(self).bytes)@ == final(old(self).bytes)@,
            final(self).image() == (NodeImage { keys: old(self).image().keys.update(i as int, key), ..old(self).image() }),
    {
        let len = self.bytes.len();
        proof {
            lemma_well_sized(len as nat, self.m);
            lemma_stored(self.bytes@, key_off(i as int), key);
        }
        put_word(self.bytes, 24 + 8 * (i as usize), key);
        proof {
            assert(image(self.bytes@, self.m as nat).keys =~= old(self).image().keys.update(i as int, key));
            assert(image(self.bytes@, self.m as nat).vals =~= old(self).image().vals);
        }
    }

    /// Replaces value slot `i`.
    pub fn set_val(&mut self, i: u64, val: u64)
        requires
            old(self).wf(),
            i <= old(self).m,
        ensures
            final(self).wf(),
            final(self).m == old(self).m,
            final(self).bytes@.len() == old(self).bytes@.len(),
            final(final(self).bytes)@ == final(old(self).bytes)@,
            final(self).image() == (NodeImage { vals: old(self).image().vals.update(i as int, val), ..old(self).image() }),
    {
        let len = self.bytes.len();
        proof {
            lemma_well_sized(len as nat, self.m);
            lemma_stored(self.bytes@, val_off(self.m as int, i as int), val);
        }
        put_word(self.bytes, 24 + 8 * (self.m as usize) + 8 * (i as usize), val);
        proof {
            assert(image(self.bytes@, self.m as nat).keys =~= old(self).image().keys);
            assert(image(self.bytes@, self.m as nat).vals =~= old(self).image().vals.update(i as int, val));
        }
    }
}

/// The little-endian form of zero is eight zero bytes.
proof fn lemma_zero_word(bytes: Seq<u8>)
    requires
        8 <= bytes.len(),
    ensures
        forall|i: int| 0 <= i < 8 ==> stored(bytes, 0, 0)[i] == 0,
{
    vstd::bytes::spec_u64_to_le_bytes_to_open(0);
    assert(0u64 & 0xff == 0 && (0u64 >> 8) & 0xff == 0 && (0u64 >> 16) & 0xff == 0 && (0u64 >> 24) & 0xff == 0 && (0u64
        >> 32) & 0xff == 0 && (0u64 >> 40) & 0xff == 0 && (0u64 >> 48) & 0xff == 0 && (0u64 >> 56) & 0xff == 0)
        by (bit_vector);
    assert(spec_u64_to_le_bytes(0) =~= Seq::new(8, |i: int| 0u8));
}

/// Bytes that differ only in the first eight hold the same words from byte 8
/// on.
proof fn lemma_slots_kept(a: Seq<u8>, b: Seq<u8>, m: nat)
    requires
        a.len() == b.len(),
        forall|i: int| 8 <= i < a.len() ==> a[i] == b[i],
    ensures
        forall|o: int| 8 <= o && o + 8 <= a.len() ==> #[trigger] word(b, o) == word(a, o),
{
    assert forall|o: int| 8 <= o && o + 8 <= a.len() implies #[trigger] word(b, o) == word(a, o) by {
        assert(b.subrange(o, o + 8) =~= a.subrange(o, o + 8));
    }
}

} // verus!
