use vstd::prelude::*;

verus! {

/// The 5-bit groups that a single polyline value is split into, either
/// raw (each group below 32) or already offset into printable ASCII.
pub struct Chunks {
    chunks: Vec<u32>,
}

/// The 5-bit groups of `element`, taken from bit offset `i` upward:
/// empty once `element >> i` has no bits left (or the offset leaves the
/// 32-bit range), otherwise the group at offset `i` followed by the
/// groups from offset `i + 5`.
pub open spec fn five_bit_groups(element: u32, i: u32) -> Seq<u32>
    decreases 35 - i,
{
    if i > 30 || element >> i == 0 {
        Seq::empty()
    } else {
        seq![(element >> i) & 0x1f] + five_bit_groups(element, (i + 5) as u32)
    }
}

/// The 5-bit groups encoding `element`: value 0 still takes one group.
pub open spec fn chunks_of(element: u32) -> Seq<u32> {
    if element == 0 {
        seq![0u32]
    } else {
        five_bit_groups(element, 0)
    }
}

/// The code points of a character sequence.
pub open spec fn char_codes(s: Seq<char>) -> Seq<u32> {
    s.map_values(|c: char| c as u32)
}

/// Groups made ready for rendering: every group but the last carries the
/// continuation flag, and all are offset by 63 into printable ASCII.
pub open spec fn marked_chunks(chunks: Seq<u32>) -> Seq<u32> {
    Seq::new(
        chunks.len(),
        |i: int|
            if i + 1 == chunks.len() {
                (chunks[i] + 63) as u32
            } else {
                ((chunks[i] | 0x20) + 63) as u32
            },
    )
}

/// A code point's offset from 63, wrapping below zero as 32-bit
/// subtraction does.
pub open spec fn offset_code(code: u32) -> u32 {
    if code >= 63 {
        (code - 63) as u32
    } else {
        (code - 63 + 0x1_0000_0000) as u32
    }
}

/// The groups read back from one rendered coordinate group: each code
/// point less 63, with the continuation flag stripped from every
/// character but the last.
pub open spec fn line_chunks(codes: Seq<u32>) -> Seq<u32> {
    Seq::new(
        codes.len(),
        |i: int|
            if i + 1 == codes.len() {
                offset_code(codes[i])
            } else {
                offset_code(codes[i]) & 0x1f
            },
    )
}

/// Relies on String::push: it appends exactly the given character.
pub assume_specification[ String::push ](s: &mut String, ch: char)
    ensures
        final(s)@ == old(s)@.push(ch),
;

/// The unsigned 32-bit value reassembled from a group sequence: each
/// group contributes its 5 bits at the next higher offset, excess bits
/// wrapping away as they do in 32-bit arithmetic.
pub open spec fn raw_u32(chunks: Seq<u32>) -> u32
    decreases chunks.len(),
{
    if chunks.len() == 0 {
        0u32
    } else {
        vstd::wrapping::u32_specs::wrapping_add(chunks[0], raw_u32(chunks.skip(1)) << 5)
    }
}

/// The signed scaled value held by stripped groups: the reassembled
/// bits, with the zig-zag transform undone (complement when the low bit
/// is set, then an arithmetic shift right by one).
pub open spec fn decoded_value(chunks: Seq<u32>) -> i32 {
    let u = raw_u32(chunks);
    (if u & 1 == 1 {
        !(u as i32)
    } else {
        u as i32
    }) >> 1
}

/// Whether a character, read as a polyline code, carries the
/// continuation flag that says its group goes on.
pub open spec fn is_continuation(code: u32) -> bool {
    offset_code(code) & 0x20 != 0
}

/// Reading marked groups back strips the marking: offsetting by 63 and
/// masking the continuation flag recovers every group as it was before
/// marking.
pub proof fn lemma_line_chunks_of_marked(chunks: Seq<u32>)
    requires
        forall|j: int| 0 <= j < chunks.len() ==> chunks[j] < 32,
    ensures
        line_chunks(marked_chunks(chunks)) == chunks,
{
    assert forall|j: int| 0 <= j < chunks.len() implies line_chunks(marked_chunks(chunks))[j]
        == chunks[j] by {
        let c = chunks[j];
        assert(c | 0x20 < 64 && (c | 0x20) & 0x1f == c && c & 0x1f == c) by (bit_vector)
            requires
                c < 32,
        ;
    }
    assert(line_chunks(marked_chunks(chunks)) =~= chunks);
}

/// In a marked group every character but the last carries the
/// continuation flag, and the last does not.
pub proof fn lemma_marked_chunks_flags(chunks: Seq<u32>)
    requires
        forall|j: int| 0 <= j < chunks.len() ==> chunks[j] < 32,
    ensures
        forall|j: int|
            0 <= j < chunks.len() - 1 ==> is_continuation(marked_chunks(chunks)[j]),
        chunks.len() >= 1 ==> !is_continuation(marked_chunks(chunks)[chunks.len() - 1]),
{
    assert forall|j: int|
        0 <= j < chunks.len() - 1 implies is_continuation(marked_chunks(chunks)[j]) by {
        let c = chunks[j];
        assert(c | 0x20 < 64 && ((c | 0x20) & 0x20 != 0)) by (bit_vector)
            requires
                c < 32,
        ;
    }
    if chunks.len() >= 1 {
        let c = chunks[chunks.len() - 1];
        assert(c & 0x20 == 0) by (bit_vector)
            requires
                c < 32,
        ;
    }
}

/// The groups taken from bit offset `i` upward reassemble to the value
/// shifted right by `i`.
pub proof fn lemma_raw_of_groups(element: u32, i: u32)
    requires
        i % 5 == 0,
    ensures
        raw_u32(five_bit_groups(element, i)) == element >> i,
    decreases 35 - i,
{
    if i > 30 {
        assert(element >> i == 0) by (bit_vector)
            requires
                i > 30 && i % 5 == 0,
        ;
    } else if element >> i == 0 {
    } else {
        lemma_raw_of_groups(element, (i + 5) as u32);
        let groups = five_bit_groups(element, i);
        let rest = five_bit_groups(element, (i + 5) as u32);
        assert(groups == seq![(element >> i) & 0x1f] + rest);
        assert(groups.skip(1) =~= rest);
        assert(groups[0] == (element >> i) & 0x1f);
        let i5 = ((i + 5) as u32);
        assert(((element >> i) & 0x1f) + ((element >> i5) << 5) == element >> i) by (bit_vector)
            requires
                i <= 30,
                i5 == i + 5,
        ;
        assert(raw_u32(groups) == vstd::wrapping::u32_specs::wrapping_add(
            (element >> i) & 0x1f,
            (element >> (i + 5) as u32) << 5,
        ));
    }
}

/// A value's own groups reassemble to the value itself.
pub proof fn lemma_raw_of_chunks(element: u32)
    ensures
        raw_u32(chunks_of(element)) == element,
{
    if element == 0 {
        assert(seq![0u32].skip(1) =~= Seq::<u32>::empty());
        assert(raw_u32(Seq::<u32>::empty()) == 0);
        assert(0u32 << 5 == 0) by (bit_vector);
        assert(raw_u32(seq![0u32]) == vstd::wrapping::u32_specs::wrapping_add(0u32, 0u32 << 5));
    } else {
        lemma_raw_of_groups(element, 0);
        assert(element >> 0 == element) by (bit_vector);
    }
}

/// The code points of a longer character sequence extend those of a prefix.
pub proof fn lemma_char_codes_push(s: Seq<char>, c: char)
    ensures
        char_codes(s.push(c)) == char_codes(s).push(c as u32),
{
    assert(char_codes(s.push(c)) =~= char_codes(s).push(c as u32));
}

/// Code points distribute over concatenation.
pub proof fn lemma_char_codes_append(a: Seq<char>, b: Seq<char>)
    ensures
        char_codes(a + b) == char_codes(a) + char_codes(b),
{
    assert(char_codes(a + b) =~= char_codes(a) + char_codes(b));
}

/// Every 5-bit group extracted from a value fits in 5 bits.
pub proof fn lemma_five_bit_groups_bounded(element: u32, i: u32)
    ensures
        forall|j: int|
            0 <= j < five_bit_groups(element, i).len() ==> five_bit_groups(element, i)[j] < 32,
    decreases 35 - i,
{
    if i > 30 || element >> i == 0 {
    } else {
        lemma_five_bit_groups_bounded(element, (i + 5) as u32);
        assert((element >> i) & 0x1f < 32) by (bit_vector);
        assert forall|j: int|
            0 <= j < five_bit_groups(element, i).len() implies five_bit_groups(element, i)[j]
            < 32 by {
            if j > 0 {
                assert(five_bit_groups(element, i)[j] == five_bit_groups(
                    element,
                    (i + 5) as u32,
                )[j - 1]);
            }
        }
    }
}

/// A value's group sequence is never empty and every group fits in 5 bits.
pub proof fn lemma_chunks_of_bounded(element: u32)
    ensures
        chunks_of(element).len() >= 1,
        forall|j: int| 0 <= j < chunks_of(element).len() ==> chunks_of(element)[j] < 32,
{
    if element == 0 {
    } else {
        lemma_five_bit_groups_bounded(element, 0);
        assert(element >> 0 != 0) by (bit_vector)
            requires
                element != 0,
        ;
    }
}

impl View for Chunks {
    type V = Seq<u32>;

    closed spec fn view(&self) -> Seq<u32> {
        self.chunks@
    }
}

impl Chunks {
    pub fn new() -> (c: Chunks)
        ensures
            c@ == Seq::<u32>::empty(),
    {
        Chunks { chunks: Vec::new() }
    }

    /// splices an integer into chunks
    pub fn parse(&mut self, element: u32)
        ensures
            final(self)@ == chunks_of(element),
    {
        self.slice(element);
    }

    /// splits elements into groups of 5 bits
    fn slice(&mut self, element: u32)
        ensures
            final(self)@ == chunks_of(element),
    {
        if element == 0 {
            self.chunks = vec![0u32];
            return;
        }

        let mut chunk_slice: Vec<u32> = Vec::new();
        let bit_mask: u32 = 0x1f;

        let mut i: u32 = 0;
        while i <= 30 && element >> i != 0
            invariant
                bit_mask == 0x1f,
                i % 5 == 0,
                i <= 35,
                chunk_slice@ + five_bit_groups(element, i) == five_bit_groups(element, 0),
            decreases 35 - i,
        {
            let group = (element >> i) & bit_mask;
            let ghost pre = chunk_slice@;
            let ghost i0 = i;
            chunk_slice.push(group);
            i += 5;
            proof {
                assert(five_bit_groups(element, i0) == seq![group]
                    + five_bit_groups(element, i));
                assert(pre + (seq![group] + five_bit_groups(element, i))
                    =~= (pre + seq![group]) + five_bit_groups(element, i));
                assert(pre + seq![group] =~= pre.push(group));
            }
        }

        proof {
            assert(five_bit_groups(element, i) == Seq::<u32>::empty());
            assert(chunk_slice@ =~= chunk_slice@ + five_bit_groups(element, i));
        }
        self.chunks = chunk_slice;
    }

    /// converts and splices string into integer chunks
    pub fn parse_line(&mut self, line: &str)
        ensures
            final(self)@ == line_chunks(char_codes(line@)),
    {
        let mut chunk_slice: Vec<u32> = Vec::new();

        let line_length = line.unicode_len();
        let mut i: usize = 0;
        while i < line_length
            invariant
                line_length == line@.len(),
                i <= line_length,
                chunk_slice@.len() == i,
                forall|j: int|
                    0 <= j < i ==> chunk_slice@[j] == line_chunks(char_codes(line@))[j],
            decreases line_length - i,
        {
            let letter = line.get_char(i);
            let mut element_int: u32 = (letter as u32).wrapping_sub(63);
            if i != line_length - 1 {
                element_int = element_int & 0x1f;
            }
            proof {
                assert(char_codes(line@)[i as int] == letter as u32);
                assert(offset_code(letter as u32) == (letter as u32).wrapping_sub(63));
            }
            chunk_slice.push(element_int);
            i += 1;
        }
        proof {
            assert(chunk_slice@ =~= line_chunks(char_codes(line@)));
        }
        self.chunks = chunk_slice;
    }

    /// returns the chunks as a polyline string
    pub fn string(&mut self) -> (s: String)
        requires
            forall|j: int| 0 <= j < old(self)@.len() ==> old(self)@[j] < 32,
        ensures
            final(self)@ == marked_chunks(old(self)@),
            char_codes(s@) == marked_chunks(old(self)@),
    {
        self.or();

        let mut s = String::new();
        let mut i: usize = 0;
        while i < self.chunks.len()
            invariant
                self@ == marked_chunks(old(self)@),
                forall|j: int| 0 <= j < old(self)@.len() ==> old(self)@[j] < 32,
                i <= self@.len(),
                char_codes(s@) == self@.take(i as int),
            decreases self@.len() - i,
        {
            let e = self.chunks[i];
            proof {
                let c = old(self)@[i as int];
                assert(c | 0x20 < 64) by (bit_vector)
                    requires
                        c < 32,
                ;
                assert(e <= 126);
            }
            let letter = (e as u8) as char;
            proof {
                assert(letter as u32 == e);
            }
            let ghost s0 = s@;
            s.push(letter);
            proof {
                assert(s0.len() == char_codes(s0).len());
                assert(char_codes(s@).len() == i + 1);
                assert forall|j: int| 0 <= j < i + 1 implies char_codes(s@)[j] == self@.take(
                    i + 1,
                )[j] by {
                    assert(char_codes(s@)[j] == s@[j] as u32);
                    if j < i {
                        assert(char_codes(s0)[j] == self@.take(i as int)[j]);
                        assert(s@[j] == s0[j]);
                    }
                }
                assert(char_codes(s@) =~= self@.take(i + 1));
            }
            i += 1;
        }
        proof {
            assert(self@.take(self@.len() as int) =~= self@);
        }
        s
    }

    /// converts integer chunks into a single scaled coordinate value:
    /// the groups are summed at 5-bit offsets (from the top group down,
    /// wrapping at 32 bits) and the zig-zag transform is undone
    pub fn coordinate_value(&self) -> (v: i32)
        ensures
            v == decoded_value(self@),
    {
        let mut result: u32 = 0;
        let mut i: usize = self.chunks.len();
        while i > 0
            invariant
                i <= self@.len(),
                result == raw_u32(self@.skip(i as int)),
            decreases i,
        {
            i -= 1;
            result = self.chunks[i].wrapping_add(result << 5);
            proof {
                assert(self@.skip(i as int).skip(1) =~= self@.skip(i as int + 1));
            }
        }
        proof {
            assert(self@.skip(0) =~= self@);
        }

        let result_int: i32 = if result & 1 == 1 {
            !(result as i32)
        } else {
            result as i32
        };
        result_int >> 1
    }

    /// sets the 6th bit to 1 for every chunk except the last one
    /// as indicator bit for coordinate boundaries.
    /// It also adds 63 (decimal) to every group to ensure it is in
    /// ASCII range
    fn or(&mut self)
        requires
            forall|j: int| 0 <= j < old(self)@.len() ==> old(self)@[j] < 32,
        ensures
            final(self)@ == marked_chunks(old(self)@),
    {
        let chunks_length = self.chunks.len();

        let mut i: usize = 0;
        while i < chunks_length
            invariant
                chunks_length == old(self)@.len(),
                self@.len() == old(self)@.len(),
                i <= chunks_length,
                forall|j: int| i <= j < chunks_length ==> self@[j] == old(self)@[j],
                forall|j: int| 0 <= j < chunks_length ==> old(self)@[j] < 32,
                forall|j: int| 0 <= j < i ==> self@[j] == marked_chunks(old(self)@)[j],
            decreases chunks_length - i,
        {
            let mut e = self.chunks[i];
            if i < chunks_length - 1 {
                e = e | 0x20;
            }
            proof {
                let c = old(self)@[i as int];
                assert(c | 0x20 < 64) by (bit_vector)
                    requires
                        c < 32,
                ;
            }
            self.chunks.set(i, e + 63);
            i += 1;
        }
        proof {
            assert(self@ =~= marked_chunks(old(self)@));
        }
    }
}

} // verus!
