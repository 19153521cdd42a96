use vstd::prelude::*;

verus! {

/// A run of bytes: from `start` up to, not including, `end`.
#[derive(Debug, Clone, Copy, PartialEq, Eq, Structural)]
pub struct Span {
    pub start: usize,
    pub end: usize,
}

/// Where the parts of a mesh stand in a text: its name, and the numbers of
/// its facets, twelve to a facet: the normal, then the three vertices.
#[derive(Debug)]
pub struct AsciiLayout {
    pub name: Span,
    pub numbers: Vec<Span>,
}

/// Whether a byte is a space, a tab, a line feed, a form feed or a carriage
/// return.
pub open spec fn is_space(b: u8) -> bool {
    b == 0x20 || b == 0x09 || b == 0x0a || b == 0x0c || b == 0x0d
}

/// The first place at or after `at` that holds no white space, or the end.
pub open spec fn after_spaces(bytes: Seq<u8>, at: int) -> int
    decreases bytes.len() - at,
{
    if 0 <= at < bytes.len() && is_space(bytes[at]) {
        after_spaces(bytes, at + 1)
    } else {
        at
    }
}

/// The first place at or after `at` that holds white space, or the end.
pub open spec fn token_end(bytes: Seq<u8>, at: int) -> int
    decreases bytes.len() - at,
{
    if 0 <= at < bytes.len() && !is_space(bytes[at]) {
        token_end(bytes, at + 1)
    } else {
        at
    }
}

/// Whether `word` stands at `at`.
pub open spec fn has_word(bytes: Seq<u8>, at: int, word: Seq<u8>) -> bool {
    0 <= at && at + word.len() <= bytes.len() && bytes.subrange(at, at + word.len()) == word
}

/// The place after `word` and the white space behind it, if `word` stands
/// at `at`.
pub open spec fn after_word(bytes: Seq<u8>, at: int, word: Seq<u8>) -> Option<int> {
    if has_word(bytes, at, word) {
        Some(after_spaces(bytes, at + word.len()))
    } else {
        None
    }
}

/// The token at the first place at or after `at` that holds no white space,
/// and the place after the white space behind it. A token ends before white
/// space: one that runs to the end of the text is none.
pub open spec fn token_at(bytes: Seq<u8>, at: int) -> Option<(Span, int)> {
    let start = after_spaces(bytes, at);
    let end = token_end(bytes, start);
    if 0 <= at && end < bytes.len() {
        Some((Span { start: start as usize, end: end as usize }, after_spaces(bytes, end)))
    } else {
        None
    }
}

/// How far a text has been read: the numbers found so far and the place
/// reached, or nothing once the text has turned out not to be a mesh.
pub type Progress = Option<(Seq<Span>, int)>;

/// Reading `word` and the white space behind it.
pub open spec fn then_word(bytes: Seq<u8>, so_far: Progress, word: Seq<u8>) -> Progress {
    match so_far {
        Some((numbers, at)) => match after_word(bytes, at, word) {
            Some(next) => Some((numbers, next)),
            None => None,
        },
        None => None,
    }
}

/// Reading one number, with the white space before and behind it.
pub open spec fn then_number(bytes: Seq<u8>, so_far: Progress) -> Progress {
    match so_far {
        Some((numbers, at)) => match token_at(bytes, at) {
            Some((span, next)) => Some((numbers.push(span), next)),
            None => None,
        },
        None => None,
    }
}

/// Reading three numbers.
pub open spec fn then_triple(bytes: Seq<u8>, so_far: Progress) -> Progress {
    then_number(bytes, then_number(bytes, then_number(bytes, so_far)))
}

/// Reading the word `vertex` and three numbers.
pub open spec fn then_vertex(bytes: Seq<u8>, so_far: Progress) -> Progress {
    then_triple(bytes, then_word(bytes, so_far, word_vertex()))
}

/// Reading one facet: white space, `facet normal` and three numbers,
/// `outer loop`, three vertices, `endloop`, `endfacet`, with white space
/// between them at will.
pub open spec fn then_facet(bytes: Seq<u8>, so_far: Progress) -> Progress {
    let start = match so_far {
        Some((numbers, at)) => Some((numbers, after_spaces(bytes, at))),
        None => None,
    };
    let normal = then_triple(
        bytes,
        then_word(bytes, then_word(bytes, start, word_facet()), word_normal()),
    );
    let opened = then_word(bytes, then_word(bytes, normal, word_outer()), word_loop());
    let vertices = then_vertex(bytes, then_vertex(bytes, then_vertex(bytes, opened)));
    then_word(bytes, then_word(bytes, vertices, word_endloop()), word_endfacet())
}

/// Reading facets up to the word `endsolid`: all the numbers found, if
/// the word comes.
pub open spec fn then_facets(bytes: Seq<u8>, numbers: Seq<Span>, at: int) -> Option<Seq<Span>>
    decreases bytes.len() - at,
{
    if has_word(bytes, at, word_endsolid()) {
        Some(numbers)
    } else {
        match then_facet(bytes, Some((numbers, at))) {
            Some((more, next)) => if at < next <= bytes.len() {
                then_facets(bytes, more, next)
            } else {
                None
            },
            None => None,
        }
    }
}

pub open spec fn word_solid() -> Seq<u8> {
    seq![0x73u8, 0x6f, 0x6c, 0x69, 0x64, 0x20]
}

pub open spec fn word_facet() -> Seq<u8> {
    seq![0x66u8, 0x61, 0x63, 0x65, 0x74]
}

pub open spec fn word_normal() -> Seq<u8> {
    seq![0x6eu8, 0x6f, 0x72, 0x6d, 0x61, 0x6c]
}

pub open spec fn word_outer() -> Seq<u8> {
    seq![0x6fu8, 0x75, 0x74, 0x65, 0x72]
}

pub open spec fn word_loop() -> Seq<u8> {
    seq![0x6cu8, 0x6f, 0x6f, 0x70]
}

pub open spec fn word_vertex() -> Seq<u8> {
    seq![0x76u8, 0x65, 0x72, 0x74, 0x65, 0x78]
}

pub open spec fn word_endloop() -> Seq<u8> {
    seq![0x65u8, 0x6e, 0x64, 0x6c, 0x6f, 0x6f, 0x70]
}

pub open spec fn word_endfacet() -> Seq<u8> {
    seq![0x65u8, 0x6e, 0x64, 0x66, 0x61, 0x63, 0x65, 0x74]
}

pub open spec fn word_endsolid() -> Seq<u8> {
    seq![0x65u8, 0x6e, 0x64, 0x73, 0x6f, 0x6c, 0x69, 0x64]
}

/// The place of the name of the mesh and the place after the white space
/// behind it, if the text starts, after white space, with `solid `.
pub open spec fn name_at(bytes: Seq<u8>) -> Option<(Span, int)> {
    match after_word(bytes, after_spaces(bytes, 0), word_solid()) {
        Some(at) => {
            let end = token_end(bytes, at);
            if end < bytes.len() {
                Some((Span { start: at as usize, end: end as usize }, after_spaces(bytes, end)))
            } else {
                None
            }
        },
        None => None,
    }
}

/// The name and the numbers of a mesh in text form, if the text is one:
/// `solid`, a name, facets, `endsolid`.
pub open spec fn layout_of(bytes: Seq<u8>) -> Option<(Span, Seq<Span>)> {
    match name_at(bytes) {
        Some((name, at)) => match then_facets(bytes, Seq::empty(), at) {
            Some(numbers) => Some((name, numbers)),
            None => None,
        },
        None => None,
    }
}

/// White space is skipped up to the end of the text at most, and skipping
/// twice skips no more.
pub proof fn lemma_after_spaces(bytes: Seq<u8>, at: int)
    requires
        0 <= at <= bytes.len(),
    ensures
        at <= after_spaces(bytes, at) <= bytes.len(),
        after_spaces(bytes, after_spaces(bytes, at)) == after_spaces(bytes, at),
    decreases bytes.len() - at,
{
    if at < bytes.len() && is_space(bytes[at]) {
        lemma_after_spaces(bytes, at + 1);
    }
}

/// A token ends at the end of the text at the latest.
pub proof fn lemma_token_end(bytes: Seq<u8>, at: int)
    requires
        0 <= at <= bytes.len(),
    ensures
        at <= token_end(bytes, at) <= bytes.len(),
    decreases bytes.len() - at,
{
    if at < bytes.len() && !is_space(bytes[at]) {
        lemma_token_end(bytes, at + 1);
    }
}

/// A reader of the text format, at some place in its bytes.
#[derive(Debug)]
pub struct AsciiParser<'a> {
    buffer: &'a [u8],
    cursor: usize,
    numbers: Vec<Span>,
}

impl<'a> AsciiParser<'a> {
    /// The bytes that are read.
    pub closed spec fn bytes(&self) -> Seq<u8> {
        self.buffer@
    }

    /// How far the text has been read.
    closed spec fn progress(&self) -> Progress {
        Some((self.numbers@, self.cursor as int))
    }

    /// Whether the place reached lies within the text.
    closed spec fn within(&self) -> bool {
        self.cursor <= self.buffer@.len()
    }

    /// Whether the reader stands before the name of the mesh.
    pub closed spec fn wf(&self) -> bool {
        &&& self.within()
        &&& self.numbers@.len() == 0
        &&& after_word(self.buffer@, after_spaces(self.buffer@, 0), word_solid()) == Some(
            self.cursor as int,
        )
    }

    /// A reader of `buffer`, if the text starts, after white space, with
    /// `solid `.
    pub fn new(buffer: &'a [u8]) -> (r: Result<AsciiParser<'a>, ()>)
        ensures
            r is Ok <==> has_word(buffer@, after_spaces(buffer@, 0), word_solid()),
            r is Ok ==> r->Ok_0.wf() && r->Ok_0.bytes() == buffer@,
    {
        let mut ascii_parser = AsciiParser { buffer, cursor: 0, numbers: Vec::new() };

        ascii_parser.skip_whitespace();
        let solid: [u8; 6] = [0x73, 0x6f, 0x6c, 0x69, 0x64, 0x20];
        assert(solid@ =~= word_solid());
        match ascii_parser.expect_bytes(solid.as_slice()) {
            Ok(()) => {},
            Err(()) => {
                return Err(());
            },
        }
        ascii_parser.skip_whitespace();

        Ok(ascii_parser)
    }

    /// Where the name and the numbers of the mesh stand.
    pub fn parse(self) -> (r: Result<AsciiLayout, ()>)
        requires
            self.wf(),
        ensures
            match r {
                Ok(layout) => layout_of(self.bytes()) == Some((layout.name, layout.numbers@)),
                Err(_) => layout_of(self.bytes()) is None,
            },
    {
        let mut reader = self;
        let ghost bytes = reader.buffer@;
        let ghost first = reader.cursor as int;
        proof {
            lemma_after_spaces(bytes, 0);
            lemma_after_spaces(bytes, after_spaces(bytes, 0) + 6);
        }
        let name = match reader.read_string() {
            Ok(name) => name,
            Err(()) => {
                return Err(());
            },
        };
        let ghost body = reader.cursor as int;
        proof {
            lemma_token_end(bytes, first);
            assert(name_at(bytes) == Some((name, body)));
            assert(reader.numbers@ =~= Seq::<Span>::empty());
        }

        let endsolid: [u8; 8] = [0x65, 0x6e, 0x64, 0x73, 0x6f, 0x6c, 0x69, 0x64];
        assert(endsolid@ =~= word_endsolid());
        loop
            invariant
                reader.buffer@ == bytes,
                reader.within(),
                endsolid@ == word_endsolid(),
                self.bytes() == bytes,
                name_at(bytes) == Some((name, body)),
                then_facets(bytes, Seq::empty(), body) == then_facets(
                    bytes,
                    reader.numbers@,
                    reader.cursor as int,
                ),
            decreases bytes.len() - reader.cursor,
        {
            if reader.consume_if_next_is_bytes(endsolid.as_slice()) {
                return Ok(AsciiLayout { name, numbers: reader.numbers });
            }
            match reader.read_triangle() {
                Ok(()) => {},
                Err(()) => {
                    return Err(());
                },
            }
        }
    }

    fn expect_bytes(&mut self, s: &[u8]) -> (r: Result<(), ()>)
        requires
            old(self).within(),
        ensures
            final(self).buffer == old(self).buffer,
            final(self).numbers == old(self).numbers,
            final(self).within(),
            r is Ok <==> has_word(old(self).buffer@, old(self).cursor as int, s@),
            r is Ok ==> final(self).cursor == old(self).cursor + s@.len(),
            r is Err ==> final(self).cursor == old(self).cursor,
    {
        let n = s.len();
        let len = self.buffer.len();
        if n > len - self.cursor {
            return Err(());
        }
        let mut i: usize = 0;
        while i < n
            invariant
                i <= n,
                n == s@.len(),
                len == self.buffer@.len(),
                self.cursor + n <= len,
                self.cursor == old(self).cursor,
                self.buffer == old(self).buffer,
                self.numbers == old(self).numbers,
                forall|k: int| 0 <= k < i ==> self.buffer@[self.cursor + k] == s@[k],
            decreases n - i,
        {
            if self.buffer[self.cursor + i] != s[i] {
                assert(self.buffer@.subrange(self.cursor as int, self.cursor + n)[i as int]
                    != s@[i as int]);
                return Err(());
            }
            i += 1;
        }
        assert(self.buffer@.subrange(self.cursor as int, self.cursor + n) =~= s@);
        self.cursor += n;

        Ok(())
    }

    fn consume_if_next_is_bytes(&mut self, s: &[u8]) -> (found: bool)
        requires
            old(self).within(),
        ensures
            final(self).buffer == old(self).buffer,
            final(self).numbers == old(self).numbers,
            final(self).within(),
            found == has_word(old(self).buffer@, old(self).cursor as int, s@),
            found ==> final(self).cursor == old(self).cursor + s@.len(),
            !found ==> final(self).cursor == old(self).cursor,
    {
        match self.expect_bytes(s) {
            Ok(()) => true,
            Err(()) => false,
        }
    }

    /// Whether white space stands at the cursor.
    fn next_is_whitespace(&self) -> (r: bool)
        requires
            self.cursor < self.buffer@.len(),
        ensures
            r == is_space(self.buffer@[self.cursor as int]),
    {
        let b = self.buffer[self.cursor];
        b == 0x20 || b == 0x09 || b == 0x0a || b == 0x0c || b == 0x0d
    }

    /// Passes over the byte at the cursor if it is white space.
    fn consume_next_if_whitespace(&mut self) -> (passed: bool)
        requires
            old(self).within(),
        ensures
            final(self).buffer == old(self).buffer,
            final(self).numbers == old(self).numbers,
            final(self).within(),
            passed == (old(self).cursor < old(self).buffer@.len() && is_space(
                old(self).buffer@[old(self).cursor as int],
            )),
            final(self).cursor == (if passed {
                old(self).cursor + 1
            } else {
                old(self).cursor as int
            }),
    {
        let next_is_whitespace = self.cursor < self.buffer.len() && self.next_is_whitespace();

        if next_is_whitespace {
            self.cursor += 1;
        }

        next_is_whitespace
    }

    fn skip_whitespace(&mut self)
        requires
            old(self).within(),
        ensures
            final(self).buffer == old(self).buffer,
            final(self).numbers == old(self).numbers,
            final(self).cursor == after_spaces(old(self).buffer@, old(self).cursor as int),
            final(self).within(),
    {
        while self.consume_next_if_whitespace()
            invariant
                self.within(),
                self.buffer == old(self).buffer,
                self.numbers == old(self).numbers,
                after_spaces(self.buffer@, self.cursor as int) == after_spaces(
                    old(self).buffer@,
                    old(self).cursor as int,
                ),
            decreases self.buffer@.len() - self.cursor,
        {
        }
    }

    /// Reads up to the next white space, which must come, and skips it.
    fn read_string(&mut self) -> (r: Result<Span, ()>)
        requires
            old(self).within(),
            after_spaces(old(self).buffer@, old(self).cursor as int) == old(self).cursor,
        ensures
            final(self).buffer == old(self).buffer,
            final(self).numbers == old(self).numbers,
            final(self).within(),
            match r {
                Ok(span) => token_at(old(self).buffer@, old(self).cursor as int) == Some(
                    (span, final(self).cursor as int),
                ),
                Err(_) => token_at(old(self).buffer@, old(self).cursor as int) is None,
            },
    {
        let cursor_start = self.cursor;
        let len = self.buffer.len();

        while self.cursor < len && !self.next_is_whitespace()
            invariant
                len == self.buffer@.len(),
                cursor_start <= self.cursor <= len,
                self.buffer == old(self).buffer,
                self.numbers == old(self).numbers,
                token_end(self.buffer@, self.cursor as int) == token_end(
                    old(self).buffer@,
                    cursor_start as int,
                ),
            decreases len - self.cursor,
        {
            self.cursor += 1;
        }
        if self.cursor >= len {
            return Err(());
        }
        let span = Span { start: cursor_start, end: self.cursor };
        self.skip_whitespace();
        Ok(span)
    }

    /// Reads one number: up to the next white space, which must come.
    fn read_float(&mut self) -> (r: Result<(), ()>)
        requires
            old(self).within(),
        ensures
            final(self).buffer == old(self).buffer,
            final(self).within(),
            then_number(old(self).buffer@, old(self).progress()) == (match r {
                Ok(_) => final(self).progress(),
                Err(_) => None,
            }),
            r is Ok ==> old(self).cursor <= final(self).cursor,
    {
        proof {
            lemma_after_spaces(self.buffer@, self.cursor as int);
            lemma_token_end(self.buffer@, after_spaces(self.buffer@, self.cursor as int));
            lemma_after_spaces(
                self.buffer@,
                token_end(self.buffer@, after_spaces(self.buffer@, self.cursor as int)),
            );
        }
        self.skip_whitespace();
        match self.read_string() {
            Ok(span) => {
                self.numbers.push(span);
                Ok(())
            },
            Err(()) => Err(()),
        }
    }

    /// Reads the next three numbers.
    fn read_normal(&mut self) -> (r: Result<(), ()>)
        requires
            old(self).within(),
        ensures
            final(self).buffer == old(self).buffer,
            final(self).within(),
            then_triple(old(self).buffer@, old(self).progress()) == (match r {
                Ok(_) => final(self).progress(),
                Err(_) => None,
            }),
            r is Ok ==> old(self).cursor <= final(self).cursor,
    {
        match self.read_float() {
            Ok(()) => {},
            Err(()) => {
                return Err(());
            },
        }
        match self.read_float() {
            Ok(()) => {},
            Err(()) => {
                return Err(());
            },
        }
        self.read_float()
    }

    /// Reads the word `vertex` and three numbers.
    fn read_vertex(&mut self) -> (r: Result<(), ()>)
        requires
            old(self).within(),
        ensures
            final(self).buffer == old(self).buffer,
            final(self).within(),
            then_vertex(old(self).buffer@, old(self).progress()) == (match r {
                Ok(_) => final(self).progress(),
                Err(_) => None,
            }),
            r is Ok ==> old(self).cursor <= final(self).cursor,
    {
        let vertex: [u8; 6] = [0x76, 0x65, 0x72, 0x74, 0x65, 0x78];
        assert(vertex@ =~= word_vertex());
        match self.read_word(vertex.as_slice()) {
            Ok(()) => {},
            Err(()) => {
                return Err(());
            },
        }
        self.read_normal()
    }

    /// Reads `word` and the white space behind it.
    fn read_word(&mut self, word: &[u8]) -> (r: Result<(), ()>)
        requires
            old(self).within(),
        ensures
            final(self).buffer == old(self).buffer,
            final(self).within(),
            then_word(old(self).buffer@, old(self).progress(), word@) == (match r {
                Ok(_) => final(self).progress(),
                Err(_) => None,
            }),
            r is Ok ==> old(self).cursor < final(self).cursor || word@.len() == 0,
    {
        match self.expect_bytes(word) {
            Ok(()) => {},
            Err(()) => {
                return Err(());
            },
        }
        proof {
            lemma_after_spaces(self.buffer@, self.cursor as int);
        }
        self.skip_whitespace();
        Ok(())
    }

    /// Reads one facet.
    fn read_triangle(&mut self) -> (r: Result<(), ()>)
        requires
            old(self).within(),
        ensures
            final(self).buffer == old(self).buffer,
            final(self).within(),
            then_facet(old(self).buffer@, old(self).progress()) == (match r {
                Ok(_) => final(self).progress(),
                Err(_) => None,
            }),
            r is Ok ==> old(self).cursor < final(self).cursor,
    {
        let facet: [u8; 5] = [0x66, 0x61, 0x63, 0x65, 0x74];
        let normal: [u8; 6] = [0x6e, 0x6f, 0x72, 0x6d, 0x61, 0x6c];
        let outer: [u8; 5] = [0x6f, 0x75, 0x74, 0x65, 0x72];
        let loop_word: [u8; 4] = [0x6c, 0x6f, 0x6f, 0x70];
        let endloop: [u8; 7] = [0x65, 0x6e, 0x64, 0x6c, 0x6f, 0x6f, 0x70];
        let endfacet: [u8; 8] = [0x65, 0x6e, 0x64, 0x66, 0x61, 0x63, 0x65, 0x74];
        proof {
            assert(facet@ =~= word_facet());
            assert(normal@ =~= word_normal());
            assert(outer@ =~= word_outer());
            assert(loop_word@ =~= word_loop());
            assert(endloop@ =~= word_endloop());
            assert(endfacet@ =~= word_endfacet());
            lemma_after_spaces(self.buffer@, self.cursor as int);
        }
        self.skip_whitespace();
        match self.read_word(facet.as_slice()) {
            Ok(()) => {},
            Err(()) => {
                return Err(());
            },
        }
        match self.read_word(normal.as_slice()) {
            Ok(()) => {},
            Err(()) => {
                return Err(());
            },
        }
        match self.read_normal() {
            Ok(()) => {},
            Err(()) => {
                return Err(());
            },
        }
        match self.read_word(outer.as_slice()) {
            Ok(()) => {},
            Err(()) => {
                return Err(());
            },
        }
        match self.read_word(loop_word.as_slice()) {
            Ok(()) => {},
            Err(()) => {
                return Err(());
            },
        }
        match self.read_vertex() {
            Ok(()) => {},
            Err(()) => {
                return Err(());
            },
        }
        match self.read_vertex() {
            Ok(()) => {},
            Err(()) => {
                return Err(());
            },
        }
        match self.read_vertex() {
            Ok(()) => {},
            Err(()) => {
                return Err(());
            },
        }
        match self.read_word(endloop.as_slice()) {
            Ok(()) => {},
            Err(()) => {
                return Err(());
            },
        }
        match self.read_word(endfacet.as_slice()) {
            Ok(()) => {},
            Err(()) => {
                return Err(());
            },
        }
        Ok(())
    }
}

} // verus!
