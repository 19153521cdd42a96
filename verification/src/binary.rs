use crate::mesh::StlFile;
use crate::quantize::{dequantize, grid_value, quantize, word_of};
use crate::vertex::{Normal, Point, Triangle};
use vstd::prelude::*;
use vstd::slice::slice_subrange;

verus! {

/// The bytes before the first facet: a header of 80 bytes and the number of
/// facets.
pub const PREAMBLE_LEN: usize = 84;

/// The bytes of one facet: twelve numbers of four bytes, and two more bytes.
pub const FACET_LEN: usize = 50;

/// The 32-bit word whose four bytes, lowest first, start at `at`.
pub open spec fn word_at(bytes: Seq<u8>, at: int) -> u32 {
    (bytes[at] + bytes[at + 1] * 0x100 + bytes[at + 2] * 0x1_0000 + bytes[at + 3]
        * 0x100_0000) as u32
}

/// The number of facets that the bytes announce.
pub open spec fn declared_count(bytes: Seq<u8>) -> int {
    word_at(bytes, 80) as int
}

/// Whether the bytes hold the preamble and the twelve numbers of every
/// facet they announce. The two bytes after the last facet may be missing,
/// and anything may follow them.
pub open spec fn well_framed(bytes: Seq<u8>) -> bool {
    &&& bytes.len() >= PREAMBLE_LEN
    &&& declared_count(bytes) > 0 ==> bytes.len() + 2 >= PREAMBLE_LEN + FACET_LEN * declared_count(
        bytes,
    )
}

/// The twelve words of facet `i`: the normal, then the three vertices.
pub open spec fn facet_words(bytes: Seq<u8>, i: int) -> Seq<u32> {
    Seq::new(12, |k: int| word_at(bytes, PREAMBLE_LEN + FACET_LEN * i + 4 * k))
}

/// The facet that twelve binary32 bit patterns stand for.
pub open spec fn facet_of(words: Seq<u32>) -> Triangle {
    Triangle {
        normal: Normal {
            i: grid_value(words[0]) as i64,
            j: grid_value(words[1]) as i64,
            k: grid_value(words[2]) as i64,
        },
        v0: Point {
            x: grid_value(words[3]) as i64,
            y: grid_value(words[4]) as i64,
            z: grid_value(words[5]) as i64,
        },
        v1: Point {
            x: grid_value(words[6]) as i64,
            y: grid_value(words[7]) as i64,
            z: grid_value(words[8]) as i64,
        },
        v2: Point {
            x: grid_value(words[9]) as i64,
            y: grid_value(words[10]) as i64,
            z: grid_value(words[11]) as i64,
        },
    }
}

/// The facets that well-framed bytes hold.
pub open spec fn binary_facets(bytes: Seq<u8>) -> Seq<Triangle> {
    Seq::new(declared_count(bytes) as nat, |i: int| facet_of(facet_words(bytes, i)))
}

/// The facet that twelve binary32 bit patterns stand for.
pub fn facet_from_words(words: &[u32; 12]) -> (t: Triangle)
    ensures
        t == facet_of(words@),
{
    Triangle {
        normal: Normal { i: quantize(words[0]), j: quantize(words[1]), k: quantize(words[2]) },
        v0: Point { x: quantize(words[3]), y: quantize(words[4]), z: quantize(words[5]) },
        v1: Point { x: quantize(words[6]), y: quantize(words[7]), z: quantize(words[8]) },
        v2: Point { x: quantize(words[9]), y: quantize(words[10]), z: quantize(words[11]) },
    }
}

/// A reader of the binary format, at some place in its bytes.
#[derive(Debug)]
pub struct BinaryParser<'a> {
    buffer: &'a [u8],
    cursor: usize,
    num_of_facets: u32,
    header: &'a [u8],
}

impl<'a> BinaryParser<'a> {
    /// The bytes that are read.
    pub closed spec fn bytes(&self) -> Seq<u8> {
        self.buffer@
    }

    /// Whether the reader stands before the first facet of well-framed
    /// bytes.
    pub closed spec fn wf(&self) -> bool {
        &&& well_framed(self.buffer@)
        &&& self.cursor == PREAMBLE_LEN
        &&& self.num_of_facets == declared_count(self.buffer@)
    }

    /// A reader of `buffer`, if the bytes are well framed.
    pub fn new(buffer: &'a [u8]) -> (r: Result<BinaryParser<'a>, ()>)
        ensures
            r is Ok <==> well_framed(buffer@),
            r is Ok ==> r->Ok_0.wf() && r->Ok_0.bytes() == buffer@,
    {
        if buffer.len() < PREAMBLE_LEN {
            return Err(());
        }
        let mut bin_parser = BinaryParser {
            buffer,
            cursor: 0,
            num_of_facets: 0,
            header: slice_subrange(buffer, 0, 0),
        };

        let header = bin_parser.read_header();
        let num_of_facets = bin_parser.read_u32_le();

        bin_parser.header = header;
        bin_parser.num_of_facets = num_of_facets;

        if num_of_facets > 0 {
            let needed: u64 = PREAMBLE_LEN as u64 + FACET_LEN as u64 * num_of_facets as u64;
            if (buffer.len() as u64) < needed - 2 {
                return Err(());
            }
        }
        Ok(bin_parser)
    }

    /// The mesh that the bytes hold.
    pub fn parse(self) -> (mesh: StlFile)
        requires
            self.wf(),
        ensures
            mesh.wf(),
            mesh@ == binary_facets(self.bytes()),
    {
        let mut reader = self;
        let mut mesh = StlFile::new();
        let ghost bytes = reader.buffer@;
        let count = reader.num_of_facets;
        let mut i: u32 = 0;
        while i < count
            invariant
                i <= count,
                count == declared_count(bytes),
                reader.buffer@ == bytes,
                well_framed(bytes),
                reader.cursor + 2 == PREAMBLE_LEN + FACET_LEN * i + (if i == 0 {
                    2int
                } else {
                    0int
                }),
                mesh.wf(),
                mesh@ == binary_facets(bytes).take(i as int),
            decreases count - i,
        {
            // two more bytes follow each facet
            if i > 0 {
                reader.cursor += 2;
            }
            let facet = reader.read_facet();
            proof {
                assert(facet_words(bytes, i as int) =~= Seq::new(
                    12,
                    |k: int| word_at(bytes, PREAMBLE_LEN + FACET_LEN * i + 4 * k),
                ));
                assert(binary_facets(bytes).take(i + 1) =~= binary_facets(bytes).take(
                    i as int,
                ).push(facet));
            }
            mesh.add_triangle(facet);
            i += 1;
        }
        assert(binary_facets(bytes).take(count as int) =~= binary_facets(bytes));
        mesh
    }

    /// Reads the twelve numbers of one facet.
    fn read_facet(&mut self) -> (facet: Triangle)
        requires
            old(self).cursor + 48 <= old(self).buffer@.len(),
        ensures
            final(self).cursor == old(self).cursor + 48,
            final(self).buffer == old(self).buffer,
            final(self).num_of_facets == old(self).num_of_facets,
            final(self).header == old(self).header,
            facet == facet_of(
                Seq::new(12, |k: int| word_at(old(self).buffer@, old(self).cursor + 4 * k)),
            ),
    {
        let normal = self.read_normal();

        let v0 = self.read_vertex();
        let v1 = self.read_vertex();
        let v2 = self.read_vertex();

        Triangle { normal, v0, v1, v2 }
    }

    fn read_header(&mut self) -> (header: &'a [u8])
        requires
            old(self).cursor == 0,
            old(self).buffer@.len() >= 80,
        ensures
            final(self).cursor == 80,
            final(self).buffer == old(self).buffer,
            final(self).num_of_facets == old(self).num_of_facets,
            header@ == old(self).buffer@.subrange(0, 80),
    {
        self.cursor += 80;
        slice_subrange(self.buffer, 0, 80)
    }

    fn read_u32_le(&mut self) -> (word: u32)
        requires
            old(self).cursor + 4 <= old(self).buffer@.len(),
        ensures
            final(self).cursor == old(self).cursor + 4,
            final(self).buffer == old(self).buffer,
            final(self).num_of_facets == old(self).num_of_facets,
            final(self).header == old(self).header,
            word == word_at(old(self).buffer@, old(self).cursor as int),
    {
        let at = self.cursor;
        let len = self.buffer.len();
        self.cursor += 4;

        self.buffer[at] as u32 + (self.buffer[at + 1] as u32) * 0x100 + (self.buffer[at
            + 2] as u32) * 0x1_0000 + (self.buffer[at + 3] as u32) * 0x100_0000
    }

    /// Reads one number and gives its lattice coordinate.
    fn read_coordinate(&mut self) -> (q: i64)
        requires
            old(self).cursor + 4 <= old(self).buffer@.len(),
        ensures
            final(self).cursor == old(self).cursor + 4,
            final(self).buffer == old(self).buffer,
            final(self).num_of_facets == old(self).num_of_facets,
            final(self).header == old(self).header,
            q == grid_value(word_at(old(self).buffer@, old(self).cursor as int)),
    {
        let word = self.read_u32_le();
        quantize(word)
    }

    fn read_normal(&mut self) -> (n: Normal)
        requires
            old(self).cursor + 12 <= old(self).buffer@.len(),
        ensures
            final(self).cursor == old(self).cursor + 12,
            final(self).buffer == old(self).buffer,
            final(self).num_of_facets == old(self).num_of_facets,
            final(self).header == old(self).header,
            n.i == grid_value(word_at(old(self).buffer@, old(self).cursor as int)),
            n.j == grid_value(word_at(old(self).buffer@, old(self).cursor + 4)),
            n.k == grid_value(word_at(old(self).buffer@, old(self).cursor + 8)),
    {
        let i = self.read_coordinate();
        let j = self.read_coordinate();
        let k = self.read_coordinate();

        Normal { i, j, k }
    }

    fn read_vertex(&mut self) -> (p: Point)
        requires
            old(self).cursor + 12 <= old(self).buffer@.len(),
        ensures
            final(self).cursor == old(self).cursor + 12,
            final(self).buffer == old(self).buffer,
            final(self).num_of_facets == old(self).num_of_facets,
            final(self).header == old(self).header,
            p.x == grid_value(word_at(old(self).buffer@, old(self).cursor as int)),
            p.y == grid_value(word_at(old(self).buffer@, old(self).cursor + 4)),
            p.z == grid_value(word_at(old(self).buffer@, old(self).cursor + 8)),
    {
        let x = self.read_coordinate();
        let y = self.read_coordinate();
        let z = self.read_coordinate();

        Point { x, y, z }
    }
}

/// The `k`-th byte of a word, the lowest being byte 0.
pub open spec fn byte_of(word: u32, k: int) -> u8 {
    if k == 0 {
        (word % 0x100) as u8
    } else if k == 1 {
        (word / 0x100 % 0x100) as u8
    } else if k == 2 {
        (word / 0x1_0000 % 0x100) as u8
    } else {
        (word / 0x100_0000 % 0x100) as u8
    }
}

/// The bytes of the binary form of facets that are given as binary32 bit
/// patterns, twelve to a facet: a header of 80 zero bytes, the number of
/// facets as far as it fits into 32 bits, and of each facet its twelve
/// words, lowest byte first, and two zero bytes.
pub open spec fn framed(facets: Seq<Seq<u32>>) -> Seq<u8> {
    Seq::new(
        (PREAMBLE_LEN + FACET_LEN * facets.len()) as nat,
        |p: int|
            if p < 80 {
                0u8
            } else if p < PREAMBLE_LEN {
                byte_of(facets.len() as u32, p - 80)
            } else {
                let i = (p - PREAMBLE_LEN) / (FACET_LEN as int);
                let r = (p - PREAMBLE_LEN) % (FACET_LEN as int);
                if r < 48 {
                    byte_of(facets[i][r / 4], r % 4)
                } else {
                    0u8
                }
            },
    )
}

/// The byte at place `r` of facet `i` in the binary form.
pub proof fn lemma_framed_at(facets: Seq<Seq<u32>>, i: int, r: int)
    requires
        0 <= i < facets.len(),
        0 <= r < FACET_LEN,
    ensures
        PREAMBLE_LEN + FACET_LEN * i + r < framed(facets).len(),
        framed(facets)[PREAMBLE_LEN + FACET_LEN * i + r] == (if r < 48 {
            byte_of(facets[i][r / 4], r % 4)
        } else {
            0u8
        }),
{
    let p = PREAMBLE_LEN + FACET_LEN * i + r;
    assert((p - PREAMBLE_LEN) / (FACET_LEN as int) == i && (p - PREAMBLE_LEN) % (FACET_LEN as int)
        == r) by (nonlinear_arith)
        requires
            p - PREAMBLE_LEN == FACET_LEN * i + r,
            0 <= r < FACET_LEN,
            FACET_LEN == 50,
            0 <= i,
    ;
    assert(FACET_LEN * i + r < FACET_LEN * facets.len()) by (nonlinear_arith)
        requires
            0 <= i < facets.len(),
            0 <= r < FACET_LEN,
            FACET_LEN == 50,
    ;
}

/// The words of each of a list of facets.
pub open spec fn word_lists(facets: Seq<[u32; 12]>) -> Seq<Seq<u32>> {
    Seq::new(facets.len(), |i: int| facets[i]@)
}

/// The four bytes of a word, lowest first, at the end of `bytes`.
fn push_word(bytes: &mut Vec<u8>, word: u32)
    ensures
        final(bytes)@ == old(bytes)@.push(byte_of(word, 0)).push(byte_of(word, 1)).push(
            byte_of(word, 2),
        ).push(byte_of(word, 3)),
{
    bytes.push((word % 0x100) as u8);
    bytes.push((word / 0x100 % 0x100) as u8);
    bytes.push((word / 0x1_0000 % 0x100) as u8);
    bytes.push((word / 0x100_0000 % 0x100) as u8);
}

/// The binary form of facets that are given as binary32 bit patterns.
pub fn encode(facets: &Vec<[u32; 12]>) -> (bytes: Vec<u8>)
    ensures
        bytes@ == framed(word_lists(facets@)),
{
    let ghost words = word_lists(facets@);
    let ghost all = framed(words);
    let mut bytes: Vec<u8> = Vec::new();
    let mut h: usize = 0;
    while h < 80
        invariant
            h <= 80,
            bytes@.len() == h,
            bytes@ == all.take(h as int),
            words.len() == facets@.len(),
            all == framed(words),
        decreases 80 - h,
    {
        bytes.push(0u8);
        assert(all.take(h + 1) =~= all.take(h as int).push(0u8));
        h += 1;
    }
    let n = facets.len();
    let announced: u32 = #[verifier::truncate]
    (n as u32);
    push_word(&mut bytes, announced);
    assert(bytes@ =~= all.take(84));
    let mut i: usize = 0;
    while i < n
        invariant
            i <= n,
            n == facets@.len(),
            words == word_lists(facets@),
            all == framed(words),
            bytes@ == all.take(PREAMBLE_LEN + FACET_LEN * i),
        decreases n - i,
    {
        let facet = &facets[i];
        let ghost base = PREAMBLE_LEN + FACET_LEN * i;
        let mut k: usize = 0;
        while k < 12
            invariant
                k <= 12,
                i < n,
                n == facets@.len(),
                words == word_lists(facets@),
                all == framed(words),
                *facet == facets@[i as int],
                base == PREAMBLE_LEN + FACET_LEN * i,
                bytes@ == all.take(base + 4 * k),
            decreases 12 - k,
        {
            let ghost done = bytes@;
            push_word(&mut bytes, facet[k]);
            proof {
                assert(words[i as int] == facet@);
                lemma_framed_at(words, i as int, 4 * k);
                lemma_framed_at(words, i as int, 4 * k + 1);
                lemma_framed_at(words, i as int, 4 * k + 2);
                lemma_framed_at(words, i as int, 4 * k + 3);
                assert(all.take(base + 4 * (k + 1)) =~= done.push(all[base + 4 * k]).push(
                    all[base + 4 * k + 1],
                ).push(all[base + 4 * k + 2]).push(all[base + 4 * k + 3]));
            }
            k += 1;
        }
        proof {
            assert(words[i as int] == facets@[i as int]@);
            lemma_framed_at(words, i as int, 48);
            lemma_framed_at(words, i as int, 49);
            assert(all.take(PREAMBLE_LEN + FACET_LEN * (i + 1)) =~= bytes@.push(0u8).push(0u8));
        }
        bytes.push(0u8);
        bytes.push(0u8);
        i += 1;
    }
    assert(all.take(PREAMBLE_LEN + FACET_LEN * n) =~= all);
    bytes
}

/// A word is put together again from its four bytes.
pub proof fn lemma_word_of_bytes(word: u32)
    ensures
        byte_of(word, 0) + byte_of(word, 1) * 0x100 + byte_of(word, 2) * 0x1_0000 + byte_of(
            word,
            3,
        ) * 0x100_0000 == word,
{
}

/// What is written is read again: the bytes of the binary form of some
/// facets are well framed, announce their number, and hold their words.
pub proof fn lemma_framed_reads_back(facets: Seq<Seq<u32>>, i: int)
    requires
        facets.len() <= u32::MAX,
        forall|j: int| 0 <= j < facets.len() ==> (#[trigger] facets[j]).len() == 12,
        0 <= i < facets.len(),
    ensures
        well_framed(framed(facets)),
        declared_count(framed(facets)) == facets.len(),
        facet_words(framed(facets), i) == facets[i],
{
    let bytes = framed(facets);
    lemma_word_of_bytes(facets.len() as u32);
    assert(declared_count(bytes) == facets.len());
    assert forall|k: int| 0 <= k < 12 implies facet_words(bytes, i)[k] == facets[i][k] by {
        let at = PREAMBLE_LEN + FACET_LEN * i + 4 * k;
        lemma_framed_at(facets, i, 4 * k);
        lemma_framed_at(facets, i, 4 * k + 1);
        lemma_framed_at(facets, i, 4 * k + 2);
        lemma_framed_at(facets, i, 4 * k + 3);
        lemma_word_of_bytes(facets[i][k]);
        assert(bytes[at] == byte_of(facets[i][k], 0));
        assert(bytes[at + 1] == byte_of(facets[i][k], 1));
        assert(bytes[at + 2] == byte_of(facets[i][k], 2));
        assert(bytes[at + 3] == byte_of(facets[i][k], 3));
    }
    assert(facet_words(bytes, i) =~= facets[i]);
}

/// The twelve binary32 bit patterns of a facet: the normal, then the three
/// vertices.
pub open spec fn words_of(t: Triangle) -> Seq<u32> {
    seq![
        word_of(t.normal.i as int) as u32,
        word_of(t.normal.j as int) as u32,
        word_of(t.normal.k as int) as u32,
        word_of(t.v0.x as int) as u32,
        word_of(t.v0.y as int) as u32,
        word_of(t.v0.z as int) as u32,
        word_of(t.v1.x as int) as u32,
        word_of(t.v1.y as int) as u32,
        word_of(t.v1.z as int) as u32,
        word_of(t.v2.x as int) as u32,
        word_of(t.v2.y as int) as u32,
        word_of(t.v2.z as int) as u32,
    ]
}

/// The twelve binary32 bit patterns of a facet.
pub fn facet_to_words(t: &Triangle) -> (words: [u32; 12])
    ensures
        words@ == words_of(*t),
{
    let words = [
        dequantize(t.normal.i),
        dequantize(t.normal.j),
        dequantize(t.normal.k),
        dequantize(t.v0.x),
        dequantize(t.v0.y),
        dequantize(t.v0.z),
        dequantize(t.v1.x),
        dequantize(t.v1.y),
        dequantize(t.v1.z),
        dequantize(t.v2.x),
        dequantize(t.v2.y),
        dequantize(t.v2.z),
    ];
    proof {
        crate::quantize::lemma_word_fits(t.normal.i as int);
        crate::quantize::lemma_word_fits(t.normal.j as int);
        crate::quantize::lemma_word_fits(t.normal.k as int);
        crate::quantize::lemma_word_fits(t.v0.x as int);
        crate::quantize::lemma_word_fits(t.v0.y as int);
        crate::quantize::lemma_word_fits(t.v0.z as int);
        crate::quantize::lemma_word_fits(t.v1.x as int);
        crate::quantize::lemma_word_fits(t.v1.y as int);
        crate::quantize::lemma_word_fits(t.v1.z as int);
        crate::quantize::lemma_word_fits(t.v2.x as int);
        crate::quantize::lemma_word_fits(t.v2.y as int);
        crate::quantize::lemma_word_fits(t.v2.z as int);
        assert(words@ =~= words_of(*t));
    }
    words
}

/// Whether every coordinate of a facet is the coordinate of a binary32
/// number.
pub open spec fn is_exact_facet(t: Triangle) -> bool {
    &&& crate::quantize::is_exact(t.normal.i as int)
    &&& crate::quantize::is_exact(t.normal.j as int)
    &&& crate::quantize::is_exact(t.normal.k as int)
    &&& crate::quantize::is_exact(t.v0.x as int)
    &&& crate::quantize::is_exact(t.v0.y as int)
    &&& crate::quantize::is_exact(t.v0.z as int)
    &&& crate::quantize::is_exact(t.v1.x as int)
    &&& crate::quantize::is_exact(t.v1.y as int)
    &&& crate::quantize::is_exact(t.v1.z as int)
    &&& crate::quantize::is_exact(t.v2.x as int)
    &&& crate::quantize::is_exact(t.v2.y as int)
    &&& crate::quantize::is_exact(t.v2.z as int)
}

/// The bit patterns of a facet whose coordinates are those of binary32
/// numbers stand for that facet.
pub proof fn lemma_facet_reads_back(t: Triangle)
    requires
        is_exact_facet(t),
    ensures
        facet_of(words_of(t)) == t,
{
    crate::quantize::lemma_word_reads_back(t.normal.i as int);
    crate::quantize::lemma_word_reads_back(t.normal.j as int);
    crate::quantize::lemma_word_reads_back(t.normal.k as int);
    crate::quantize::lemma_word_reads_back(t.v0.x as int);
    crate::quantize::lemma_word_reads_back(t.v0.y as int);
    crate::quantize::lemma_word_reads_back(t.v0.z as int);
    crate::quantize::lemma_word_reads_back(t.v1.x as int);
    crate::quantize::lemma_word_reads_back(t.v1.y as int);
    crate::quantize::lemma_word_reads_back(t.v1.z as int);
    crate::quantize::lemma_word_reads_back(t.v2.x as int);
    crate::quantize::lemma_word_reads_back(t.v2.y as int);
    crate::quantize::lemma_word_reads_back(t.v2.z as int);
}

/// The bytes of the binary form of a list of facets.
pub open spec fn written(facets: Seq<Triangle>) -> Seq<u8> {
    framed(Seq::new(facets.len(), |i: int| words_of(facets[i])))
}

/// A mesh that is written is read again: the binary form of facets whose
/// coordinates are those of binary32 numbers, and of which there are no
/// more than the form can announce, is well framed and holds those facets.
pub proof fn lemma_written_reads_back(facets: Seq<Triangle>)
    requires
        facets.len() <= u32::MAX,
        forall|i: int| 0 <= i < facets.len() ==> is_exact_facet(#[trigger] facets[i]),
    ensures
        well_framed(written(facets)),
        binary_facets(written(facets)) == facets,
{
    let words = Seq::new(facets.len(), |i: int| words_of(facets[i]));
    if facets.len() > 0 {
        lemma_framed_reads_back(words, 0);
        assert forall|i: int| 0 <= i < facets.len() implies binary_facets(written(facets))[i]
            == facets[i] by {
            lemma_framed_reads_back(words, i);
            lemma_facet_reads_back(facets[i]);
        }
        assert(binary_facets(written(facets)) =~= facets);
    } else {
        lemma_word_of_bytes(0u32);
        assert(binary_facets(written(facets)) =~= facets);
    }
}

} // verus!
