//! The properties of slices and caches, on a parent whose bytes differ by position.
//!
//! A slice that reads from the wrong offset answers bytes that are valid and belong somewhere
//! else; only a parent that differs per position can tell the two apart.
use crate::block::BlockRead;
use crate::cache_laws::{cache_reads_are_transparent, cached_model};
use crate::caching_device::CachingDevice;
use crate::content::reads_back;
use crate::error::Error;
use crate::readonly::{readonly_is_transparent, readonly_model};
use crate::slice::{clamped, OwnedSlice, SliceReader};
use vstd::prelude::*;

verus! {

/// How long the parent is.
pub const PARENT_LEN: u64 = 4096;

/// The byte at a position: a hash of it, so that adjacent bytes differ, and so do bytes a power
/// of two apart.
pub open spec fn byte_at(at: int) -> u8 {
    ((((at * 2_654_435_761) % 0x1_0000_0000_0000_0000) / 8192) % 256) as u8
}

/// The byte at a position.
pub fn parent_byte(at: u64) -> (r: u8)
    ensures
        r == byte_at(at as int),
{
    let hash: u64 = at.wrapping_mul(2_654_435_761);
    ((hash / 8192) % 256) as u8
}

/// Two to the power of `k`.
pub open spec fn power_of_two(k: nat) -> nat
    decreases k,
{
    if k == 0 {
        1
    } else {
        2 * power_of_two((k - 1) as nat)
    }
}

/// The byte at a position depends on the low 21 bits of the hash alone.
proof fn lemma_low_bits(n: int)
    requires
        n >= 0,
    ensures
        ((n % 0x1_0000_0000_0000_0000) / 8192) % 256 == (n % 0x20_0000) / 8192,
{
    let m = n % 0x1_0000_0000_0000_0000;
    assert(m % 0x20_0000 == n % 0x20_0000);
    assert((m / 8192) % 256 == (m % 0x20_0000) / 8192);
}

/// A step by which the hash moves in its low 21 bits by at least one byte, and by at least one
/// byte less than all of them, changes the byte.
proof fn lemma_step_changes(n: int, d: int)
    requires
        n >= 0,
        d >= 0,
        8192 <= d % 0x20_0000 <= 0x20_0000 - 8192,
    ensures
        (n % 0x20_0000) / 8192 != ((n + d) % 0x20_0000) / 8192,
{
    let a = n % 0x20_0000;
    let s = d % 0x20_0000;
    let b = (n + d) % 0x20_0000;
    assert(b == a + s || b == a + s - 0x20_0000);
}

/// Bytes a power of two apart differ, adjacent bytes among them: a read that is misplaced by a
/// power of two gives no byte right. It holds up to the twentieth power, which is far more than
/// the parent is long.
pub proof fn bytes_a_power_of_two_apart_differ(at: int, k: nat)
    requires
        at >= 0,
        k <= 20,
    ensures
        byte_at(at) != byte_at(at + power_of_two(k)),
{
    let n = at * 2_654_435_761;
    let d: int = power_of_two(k) as int * 2_654_435_761;
    reveal_with_fuel(power_of_two, 21);
    assert(8192 <= d % 0x20_0000 <= 0x20_0000 - 8192);
    assert((at + power_of_two(k)) * 2_654_435_761 == n + d) by (nonlinear_arith)
        requires
            n == at * 2_654_435_761,
            d == power_of_two(k) * 2_654_435_761,
    ;
    lemma_low_bits(n);
    lemma_low_bits(n + d);
    lemma_step_changes(n, d);
}

/// The bytes of the parent.
pub open spec fn parent_bytes() -> Seq<u8> {
    Seq::new(PARENT_LEN as nat, |i: int| byte_at(i))
}

/// A device whose bytes differ by position.
pub struct Parent(pub Vec<u8>);

impl Parent {
    pub fn new() -> (r: Self)
        ensures
            r.0@ == parent_bytes(),
    {
        let mut bytes: Vec<u8> = Vec::new();
        let mut i: u64 = 0;
        while i < PARENT_LEN
            invariant
                0 <= i <= PARENT_LEN,
                bytes@ == parent_bytes().take(i as int),
            decreases PARENT_LEN - i,
        {
            bytes.push(parent_byte(i));
            i = i + 1;
            assert(bytes@ =~= parent_bytes().take(i as int));
        }
        assert(bytes@ =~= parent_bytes());
        Parent(bytes)
    }
}

impl Default for Parent {
    fn default() -> (r: Self)
        ensures
            r.0@ == parent_bytes(),
    {
        Parent::new()
    }
}

impl BlockRead for Parent {
    open spec fn wf(&self) -> bool {
        true
    }

    open spec fn size(&self) -> u64 {
        self.0@.len() as u64
    }

    /// A read of nothing succeeds at any offset; any other succeeds inside the bytes, and else
    /// is short by what is missing.
    open spec fn read_step(
        pre: &Self,
        offset: u64,
        buf: Seq<u8>,
        r: Result<(), Error>,
        out: Seq<u8>,
        post: &Self,
    ) -> bool {
        &&& *post == *pre
        &&& if buf.len() == 0 {
            r is Ok && out == buf
        } else if offset + buf.len() <= pre.0@.len() {
            r is Ok && out == pre.0@.subrange(offset as int, offset + buf.len())
        } else {
            &&& out == buf
            &&& r == Err::<(), Error>(
                Error::ShortRead {
                    offset,
                    want: buf.len() as usize,
                    got: if offset < pre.0@.len() {
                        (pre.0@.len() - offset) as usize
                    } else {
                        0
                    },
                },
            )
        }
    }

    fn read_at(&mut self, offset: u64, buf: &mut [u8]) -> (r: Result<(), Error>) {
        let n: usize = buf.len();
        if n == 0 {
            return Ok(());
        }
        let len: usize = self.0.len();
        let got: usize = if offset < len as u64 {
            len - offset as usize
        } else {
            0
        };
        if got < n {
            return Err(Error::ShortRead { offset, want: n, got });
        }
        let start: usize = offset as usize;
        let mut i: usize = 0;
        while i < n
            invariant
                0 <= i <= n,
                n == buf@.len(),
                start + n <= self.0@.len(),
                start + n <= usize::MAX,
                *self == *old(self),
                forall|j: int| 0 <= j < i ==> buf@[j] == self.0@[start + j],
            decreases n - i,
        {
            buf[i] = self.0[start + i];
            i = i + 1;
        }
        assert(buf@ =~= self.0@.subrange(start as int, start + n));
        Ok(())
    }

    fn size_bytes(&self) -> (r: u64) {
        self.0.len() as u64
    }
}

/// The bytes that a [`Parent`] holds.
pub open spec fn parent_model() -> spec_fn(Parent, Seq<u8>) -> bool {
    |d: Parent, bytes: Seq<u8>| d.0@ == bytes && bytes.len() <= u64::MAX
}

/// The parent is read back as it is.
pub proof fn parent_keeps_its_bytes()
    ensures
        reads_back(parent_model()),
{
    assert forall|
        d: Parent,
        bytes: Seq<u8>,
        offset: u64,
        buf: Seq<u8>,
        r: Result<(), Error>,
        out: Seq<u8>,
        post: Parent,
    |
        #![trigger parent_model()(d, bytes), Parent::read_step(&d, offset, buf, r, out, &post)]
        {
            &&& parent_model()(d, bytes)
            &&& Parent::read_step(&d, offset, buf, r, out, &post)
            &&& out.len() == buf.len()
            &&& post.wf()
        } implies {
        &&& parent_model()(post, bytes)
        &&& offset + buf.len() <= bytes.len() ==> r is Ok && out == bytes.subrange(
            offset as int,
            offset + buf.len(),
        )
        &&& buf.len() > 0 && offset + buf.len() > bytes.len() ==> r is Err
    } by {
        if buf.len() == 0 && offset <= bytes.len() {
            assert(out =~= bytes.subrange(offset as int, offset + buf.len()));
        }
    }
}

/// Where a slice starts, how long it claims to be, and the offset and length of a read into it.
pub struct Geometry {
    pub start: u64,
    pub length: u64,
    pub offset: u64,
    pub read_len: usize,
}

/// The byte at a position of the data; zero past its end.
pub open spec fn data_at(data: Seq<u8>, at: int) -> u8 {
    if 0 <= at < data.len() {
        data[at]
    } else {
        0
    }
}

/// The number that `n` bytes from `at` on spell, the lowest first.
pub open spec fn word_at(data: Seq<u8>, at: int, n: nat) -> nat
    decreases n,
{
    if n == 0 {
        0
    } else {
        data_at(data, at) as nat + 256 * word_at(data, at + 1, (n - 1) as nat)
    }
}

/// Most of the time near the edges of the parent; a multiple of eight stays as it is, so that
/// the overflow paths are still reached.
pub open spec fn near(v: nat) -> nat {
    if v % 8 == 0 {
        v
    } else {
        v % (PARENT_LEN as nat + 2)
    }
}

/// The largest number that `n` bytes spell, and one.
spec fn ceiling(n: nat) -> nat
    decreases n,
{
    if n == 0 {
        1
    } else {
        256 * ceiling((n - 1) as nat)
    }
}

proof fn lemma_word_bound(data: Seq<u8>, at: int, n: nat)
    ensures
        word_at(data, at, n) < ceiling(n),
    decreases n,
{
    if n > 0 {
        lemma_word_bound(data, at + 1, (n - 1) as nat);
    }
}

/// The eight-byte word number `i` of the data, the lowest byte first; zeros past its end.
fn word(data: &[u8], i: usize) -> (r: u64)
    requires
        i < 4,
    ensures
        r == word_at(data@, i * 8, 8),
{
    let mut value: u64 = 0;
    let mut k: usize = 8;
    while k > 0
        invariant
            i < 4,
            0 <= k <= 8,
            value == word_at(data@, i * 8 + k, (8 - k) as nat),
        decreases k,
    {
        let at: usize = i * 8 + (k - 1);
        let b: u8 = if at < data.len() {
            data[at]
        } else {
            0
        };
        proof {
            let n = (9 - k) as nat;
            lemma_word_bound(data@, at as int, n);
            assert(word_at(data@, at as int, n) == b as nat + 256 * value);
            assert(ceiling(n) <= 0x1_0000_0000_0000_0000) by {
                reveal_with_fuel(ceiling, 9);
            }
        }
        value = value * 256 + b as u64;
        k = k - 1;
    }
    value
}

fn fold(v: u64) -> (r: u64)
    ensures
        r == near(v as nat),
{
    if v % 8 == 0 {
        v
    } else {
        v % (PARENT_LEN + 2)
    }
}

/// A geometry out of the first 32 bytes of the data, folded into ranges that straddle the
/// parent's end.
pub fn geometry_from(data: &[u8]) -> (r: Geometry)
    ensures
        r.start == near(word_at(data@, 0, 8)),
        r.length == near(word_at(data@, 8, 8)),
        r.offset == near(word_at(data@, 16, 8)),
        r.read_len == word_at(data@, 24, 8) % (PARENT_LEN as nat + 2),
{
    Geometry {
        start: fold(word(data, 0)),
        length: fold(word(data, 1)),
        offset: fold(word(data, 2)),
        read_len: (word(data, 3) % (PARENT_LEN + 2)) as usize,
    }
}

/// Whether a read fits into the part of the slice that the parent has.
pub open spec fn fits_slice(g: Geometry) -> bool {
    g.offset + g.read_len <= clamped(PARENT_LEN, g.start, g.length).length
}

/// The parent's bytes that a read of the slice is to give.
pub open spec fn slice_bytes(g: Geometry) -> Seq<u8> {
    Seq::new(g.read_len as nat, |i: int| byte_at(g.start + g.offset + i))
}

/// A slice answers a read inside it with the parent's bytes from `start + offset`, and refuses
/// anything else; the borrowed and the owned slice do so alike. Hands back what both answer.
pub fn check_slice(geom: &Geometry) -> (r: Option<Vec<u8>>)
    ensures
        match r {
            Some(bytes) => fits_slice(*geom) && bytes@ == slice_bytes(*geom),
            None => !fits_slice(*geom),
        },
{
    let mut parent = Parent::new();
    let mut buf: Vec<u8> = vec![0u8; geom.read_len];
    let mut borrowed = SliceReader::new(&mut parent, geom.start, geom.length);
    let result = borrowed.read_at(geom.offset, buf.as_mut_slice());

    let mut owned = OwnedSlice::new(Parent::new(), geom.start, geom.length);
    let mut other: Vec<u8> = vec![0u8; geom.read_len];
    let owned_result = owned.read_at(geom.offset, other.as_mut_slice());

    assert(result is Ok <==> fits_slice(*geom));
    assert(owned_result is Ok <==> fits_slice(*geom));
    if result.is_ok() {
        assert(buf@ =~= slice_bytes(*geom));
        assert(other@ =~= slice_bytes(*geom));
        Some(buf)
    } else {
        None
    }
}

/// Whether the parent answers a read: one of nothing anywhere, any other inside its bytes.
pub open spec fn fits_parent(g: Geometry) -> bool {
    g.read_len == 0 || g.offset + g.read_len <= PARENT_LEN
}

/// The parent's bytes that a read at the offset is to give.
pub open spec fn device_bytes(g: Geometry) -> Seq<u8> {
    Seq::new(g.read_len as nat, |i: int| byte_at(g.offset + i))
}

/// A cache answers exactly what the device underneath it would, at every block size, and again
/// on the second read of the same range. Hands back what all three reads answer.
pub fn check_cache(geom: &Geometry) -> (r: Option<Vec<u8>>)
    ensures
        match r {
            Some(bytes) => fits_parent(*geom) && bytes@ == device_bytes(*geom),
            None => !fits_parent(*geom),
        },
{
    let block_size: u64 = 1 + (geom.length % 1024);
    let capacity: usize = (geom.start % 8) as usize;

    let mut direct = Parent::new();
    let mut cached = CachingDevice::read_only(Parent::new(), block_size, capacity);
    let mut from_cache: Vec<u8> = vec![0u8; geom.read_len];
    let mut from_device: Vec<u8> = vec![0u8; geom.read_len];
    let ghost fresh = cached;
    let ghost model = cached_model(readonly_model(parent_model()), false);
    proof {
        parent_keeps_its_bytes();
        readonly_is_transparent(parent_model());
        cache_reads_are_transparent(readonly_model(parent_model()), false);
        assert(model(fresh, parent_bytes()));
    }

    let cache_result = cached.read_at(geom.offset, from_cache.as_mut_slice());
    let device_result = direct.read_at(geom.offset, from_device.as_mut_slice());
    assert(model(cached, parent_bytes()));
    assert(cache_result is Ok <==> fits_parent(*geom));
    assert(device_result is Ok <==> fits_parent(*geom));
    if device_result.is_ok() {
        assert(from_device@ =~= device_bytes(*geom));
        assert(from_cache@ =~= device_bytes(*geom));
        let mut again: Vec<u8> = vec![0u8; geom.read_len];
        let second = cached.read_at(geom.offset, again.as_mut_slice());
        assert(second is Ok);
        assert(again@ =~= device_bytes(*geom));
        Some(again)
    } else {
        None
    }
}

/// A read fits into a slice exactly if it ends inside what was asked for and inside what the
/// parent has behind the start; what it is to give are then the parent's bytes from `start +
/// offset` on, and of a read of the device those from the offset on.
pub proof fn what_the_checks_ask_for(g: Geometry, i: int)
    requires
        0 <= i < g.read_len,
    ensures
        fits_slice(g) <==> g.offset + g.read_len <= g.length && g.start + g.offset + g.read_len
            <= 4096,
        fits_slice(g) ==> slice_bytes(g)[i] == parent_bytes()[g.start + g.offset + i],
        slice_bytes(g).len() == g.read_len && device_bytes(g).len() == g.read_len,
        fits_parent(g) <==> g.offset + g.read_len <= 4096,
        fits_parent(g) ==> device_bytes(g)[i] == parent_bytes()[g.offset + i],
        parent_bytes().len() == 4096,
{
}

/// Folding leaves every number up to just behind the parent's end, and every multiple of eight;
/// any other number it brings there, by whole lengths of that range.
pub proof fn folding_keeps_the_edges(v: nat)
    ensures
        v <= 4097 ==> near(v) == v,
        v % 8 == 0 ==> near(v) == v,
        v % 8 != 0 ==> near(v) <= 4097 && near(v) <= v && (v - near(v)) % 4098 == 0,
{
    let range = PARENT_LEN as nat + 2;
    assert(range == 4098);
    assert(v % range == v % 4098);
}

/// A word of the data is spelled by its bytes, the lowest first, and those that are missing are
/// zeros.
pub proof fn words_are_spelled_by_their_bytes(data: Seq<u8>, at: int, n: nat)
    requires
        0 <= at,
    ensures
        n > 0 && at < data.len() ==> word_at(data, at, n) % 256 == data[at],
        n > 0 ==> word_at(data, at, n) / 256 == word_at(data, at + 1, (n - 1) as nat),
        at >= data.len() ==> word_at(data, at, n) == 0,
    decreases n,
{
    if n > 0 {
        words_are_spelled_by_their_bytes(data, at + 1, (n - 1) as nat);
    }
}

} // verus!
