//! Readers for the binary dictionary files: the connection-cost matrix, the
//! character-property table and the double-array dictionaries.

use crate::bytes::{
    le_i16, le_i32, le_u16, le_u32, nul_distance, nul_terminated_len, signed32, string_from_utf8,
    unpack_i16, unpack_i32, unpack_u16, unpack_u32,
};
use crate::ucs2::{complete_chars, ucs2_at, utf8_to_ucs2, utf8_width};
use vstd::slice::slice_subrange;
use vstd::utf8::{decode_utf8, valid_utf8};
use vstd::prelude::*;

verus! {

/// What can be wrong with a dictionary file or with what it yields.
#[derive(Clone, Copy, Debug, PartialEq, Eq, Structural)]
pub enum DicError {
    /// The file is shorter than its header announces.
    Truncated,
    /// A trie cell, a token record or a feature string lies outside its
    /// section of the file.
    OutOfRange,
    /// Bytes that have to be text are not valid UTF-8.
    NotUtf8,
    /// The character table names a category that the file does not list.
    Category,
    /// An entry carries a context id for which the matrix has no cost.
    ContextId,
    /// An entry covers no byte of the input.
    EmptySurface,
    /// The input has more bytes than a lattice can hold.
    InputTooLong,
    /// Nothing that the dictionaries offer leads on from a position of the
    /// input.
    NoCandidate,
    /// The unknown-word dictionary holds nothing under the name of a
    /// character's category.
    MissingCategory,
}

/// A candidate morpheme found in a dictionary: its surface bytes inside the
/// input, its context ids, its word cost and its feature string as stored.
#[derive(Clone, Copy, Debug)]
pub struct DicEntry<'a> {
    pub original: &'a [u8],
    pub lc_attr: u16,
    pub rc_attr: u16,
    pub posid: u16,
    pub wcost: i16,
    pub feature: &'a [u8],
    pub skip: bool,
}

/// The dense table of connection costs.
pub struct Matrix<'a> {
    pub data: &'a [u8],
    pub lsize: usize,
    pub rsize: usize,
}

impl<'a> Matrix<'a> {
    /// The header agrees with the fields and the whole table lies inside the
    /// file.
    pub open spec fn wf(&self) -> bool {
        &&& self.data@.len() >= 4
        &&& self.lsize == le_u16(self.data@, 0)
        &&& self.rsize == le_u16(self.data@, 2)
        &&& 4 + 2 * (self.lsize * self.rsize) <= self.data@.len()
    }

    /// Byte offset of the cost for the pair `(id1, id2)`.
    pub open spec fn cost_offset(&self, id1: int, id2: int) -> int {
        4 + 2 * (id2 * self.lsize + id1)
    }

    /// The two bytes of the cost for `(id1, id2)` lie inside the file.
    pub open spec fn in_range(&self, id1: int, id2: int) -> bool {
        self.cost_offset(id1, id2) + 2 <= self.data@.len()
    }

    /// Both ids are context ids, and the matrix holds the cost of their
    /// pair.
    pub open spec fn has_cost(&self, id1: int, id2: int) -> bool {
        0 <= id1 <= 0xffff && 0 <= id2 <= 0xffff && self.in_range(id1, id2)
    }

    /// The cost of letting a morpheme whose right context is `id1` be
    /// followed by one whose left context is `id2`.
    pub open spec fn cost(&self, id1: int, id2: int) -> int {
        le_i16(self.data@, self.cost_offset(id1, id2))
    }

    /// Whether `data` holds a header and a table of the size that the header
    /// announces.
    pub open spec fn layout_ok(data: Seq<u8>) -> bool {
        data.len() >= 4 && 4 + 2 * (le_u16(data, 0) * le_u16(data, 2)) <= data.len()
    }

    /// Reads the header of a matrix file.
    pub fn open(data: &'a [u8]) -> (r: Result<Matrix<'a>, DicError>)
        ensures
            r is Ok <==> Self::layout_ok(data@),
            r matches Ok(m) ==> m.wf() && m.data@ == data@,
            r matches Err(e) ==> e == DicError::Truncated,
    {
        if data.len() < 4 {
            return Err(DicError::Truncated);
        }
        let lsize: u16 = unpack_u16(data, 0);
        let rsize: u16 = unpack_u16(data, 2);
        assert(lsize * rsize <= 0xffff * 0xffff) by (nonlinear_arith)
            requires
                lsize <= 0xffff,
                rsize <= 0xffff,
        ;
        let cells: u64 = (lsize as u64) * (rsize as u64);
        if (data.len() as u64) < 4 + 2 * cells {
            return Err(DicError::Truncated);
        }
        Ok(Matrix { data, lsize: lsize as usize, rsize: rsize as usize })
    }

    /// Every pair of ids below the table's two sizes has its cost in the
    /// file.
    pub proof fn lemma_ids_in_range(&self, id1: int, id2: int)
        requires
            self.wf(),
            0 <= id1 < self.lsize,
            0 <= id2 < self.rsize,
        ensures
            self.in_range(id1, id2),
    {
        let l = self.lsize as int;
        let r = self.rsize as int;
        assert(id2 * l + id1 + 1 <= l * r) by (nonlinear_arith)
            requires
                0 <= id1 < l,
                0 <= id2 < r,
        ;
    }

    /// Every pair of ids below the table's two sizes is a pair of context
    /// ids with a cost.
    pub proof fn lemma_ids_have_cost(&self, id1: int, id2: int)
        requires
            self.wf(),
            0 <= id1 < self.lsize,
            0 <= id2 < self.rsize,
        ensures
            self.has_cost(id1, id2),
    {
        self.lemma_ids_in_range(id1, id2);
    }

    /// Looks up the cost for `(id1, id2)`, sign-extended to 32 bits.
    pub fn get_trans_cost(&self, id1: u16, id2: u16) -> (c: i32)
        requires
            self.in_range(id1 as int, id2 as int),
        ensures
            c == self.cost(id1 as int, id2 as int),
            -0x8000 <= c <= 0x7fff,
    {
        let len: usize = self.data.len();
        assert(0 <= id2 * self.lsize) by (nonlinear_arith);
        assert(self.cost_offset(id1 as int, id2 as int) + 2 <= len);
        let row: usize = (id2 as usize) * self.lsize;
        let offset: usize = (row + id1 as usize) * 2 + 4;
        unpack_i16(self.data, offset) as i32
    }
}

/// The largest number of characters that are grouped into one unknown word.
pub const MAX_GROUPING_SIZE: u32 = 24;

/// Number of code units that the character table covers.
pub const CODE_UNITS: usize = 0x1_0000;

/// The largest number of categories: one for each bit of a record's set.
pub const MAX_CATEGORIES: usize = 18;

/// Number of bytes that a category name occupies in the file.
pub const NAME_SIZE: usize = 32;

/// The category that a packed character record names as its default.
pub open spec fn info_default_type(word: int) -> int {
    (word / 0x4_0000) % 0x100
}

/// The set of categories of a packed character record, one bit each.
pub open spec fn info_type(word: int) -> int {
    word % 0x4_0000
}

/// The largest number of characters of an unknown word that starts with the
/// character of a packed record.
pub open spec fn info_length(word: int) -> int {
    (word / 0x400_0000) % 0x10
}

/// Whether characters of the record's category are grouped.
pub open spec fn info_group(word: int) -> int {
    (word / 0x4000_0000) % 2
}

/// Whether unknown words are always offered for the record's category.
pub open spec fn info_invoke(word: int) -> int {
    word / 0x8000_0000
}

/// Whether the set of categories `mask` holds the category `t`.
pub open spec fn mask_has(mask: u32, t: u32) -> bool {
    ((1u32 << t) & mask) != 0
}

/// The categories of characters and the table that assigns each 16-bit code
/// unit its categories and its rules for unknown words.
pub struct CharProperty<'a> {
    pub data: &'a [u8],
    pub category_names: Vec<String>,
    pub offset: usize,
}

impl<'a> CharProperty<'a> {
    /// Number of categories that the file lists.
    pub open spec fn count(data: Seq<u8>) -> int {
        le_u32(data, 0)
    }

    /// Offset of the `i`-th category name.
    pub open spec fn name_start(i: int) -> int {
        4 + NAME_SIZE * i
    }

    /// The bytes of the `i`-th category name, up to its terminator.
    pub open spec fn name_bytes(data: Seq<u8>, i: int) -> Seq<u8> {
        data.subrange(
            Self::name_start(i),
            Self::name_start(i) + nul_distance(data, Self::name_start(i), data.len() as int),
        )
    }

    /// The first `n` names of `names` are the texts that the first `n` names
    /// of the file encode.
    pub open spec fn names_read(data: Seq<u8>, names: Seq<String>, n: int) -> bool {
        forall|k: int|
            0 <= k < n ==> {
                &&& valid_utf8(#[trigger] Self::name_bytes(data, k))
                &&& names[k]@ == decode_utf8(Self::name_bytes(data, k))
            }
    }

    /// The packed record of the code unit `code`.
    pub open spec fn word(&self, code: int) -> int {
        le_u32(self.data@, self.offset + 4 * code)
    }

    /// The file holds the names and the whole table, the names read are
    /// those of the file, and every record's default category is listed.
    pub open spec fn wf(&self) -> bool {
        &&& self.data@.len() >= 4
        &&& self.offset == 4 + NAME_SIZE * Self::count(self.data@)
        &&& self.offset + 4 * CODE_UNITS <= self.data@.len()
        &&& self.category_names@.len() == Self::count(self.data@)
        &&& self.category_names@.len() <= MAX_CATEGORIES
        &&& Self::names_read(self.data@, self.category_names@, self.category_names@.len() as int)
        &&& forall|code: int|
            0 <= code < CODE_UNITS ==> info_default_type(#[trigger] self.word(code))
                < self.category_names@.len()
    }

    /// What is wrong with the `i`-th category name, if anything: it runs to
    /// the end of the file without a terminator, or it is not valid UTF-8.
    pub open spec fn name_error(data: Seq<u8>, i: int) -> Option<DicError> {
        let start = Self::name_start(i);
        if start + nul_distance(data, start, data.len() as int) >= data.len() {
            Some(DicError::OutOfRange)
        } else if !valid_utf8(Self::name_bytes(data, i)) {
            Some(DicError::NotUtf8)
        } else {
            None
        }
    }

    /// What is wrong with the first of the first `k` category names that is
    /// not in order, if any is.
    pub open spec fn names_error(data: Seq<u8>, k: int) -> Option<DicError>
        decreases k,
    {
        if k <= 0 {
            None
        } else {
            match Self::names_error(data, k - 1) {
                Some(e) => Some(e),
                None => Self::name_error(data, k - 1),
            }
        }
    }

    /// Whether the record of `code` names a category that the file lists.
    pub open spec fn record_ok(data: Seq<u8>, code: int) -> bool {
        info_default_type(le_u32(data, 4 + NAME_SIZE * Self::count(data) + 4 * code)) < Self::count(
            data,
        )
    }

    /// Why `data` is no character table, if it is none: it is shorter than
    /// its names and its table, it lists more categories than a record's set
    /// has bits, one of its names is not in order, or a record names a
    /// category that is not listed.
    pub open spec fn open_error(data: Seq<u8>) -> Option<DicError> {
        if data.len() < 4 || data.len() < 4 + NAME_SIZE * Self::count(data) + 4 * CODE_UNITS {
            Some(DicError::Truncated)
        } else if Self::count(data) > MAX_CATEGORIES {
            Some(DicError::Category)
        } else if Self::names_error(data, Self::count(data)) is Some {
            Self::names_error(data, Self::count(data))
        } else if exists|code: int| 0 <= code < CODE_UNITS && !Self::record_ok(data, code) {
            Some(DicError::Category)
        } else {
            None
        }
    }

    /// Reads the category names and checks the table of a character
    /// property file.
    pub fn open(data: &'a [u8]) -> (r: Result<CharProperty<'a>, DicError>)
        ensures
            match Self::open_error(data@) {
                Some(e) => r matches Err(x) && x == e,
                None => r matches Ok(cp) && cp.wf() && cp.data@ == data@,
            },
    {
        let len: usize = data.len();
        if len < 4 {
            return Err(DicError::Truncated);
        }
        let num_categories: u32 = unpack_u32(data, 0);
        if (len as u64) < 4 + (NAME_SIZE as u64) * (num_categories as u64) + 4 * (CODE_UNITS as u64) {
            return Err(DicError::Truncated);
        }
        if num_categories as usize > MAX_CATEGORIES {
            return Err(DicError::Category);
        }
        let count: usize = num_categories as usize;
        let offset: usize = 4 + NAME_SIZE * count;
        let mut category_names: Vec<String> = Vec::new();
        let mut i: usize = 0;
        while i < count
            invariant
                len == data@.len(),
                count == Self::count(data@),
                count <= MAX_CATEGORIES,
                4 + NAME_SIZE * count + 4 * CODE_UNITS <= len,
                i <= count,
                category_names@.len() == i,
                Self::names_error(data@, i as int) is None,
                Self::names_read(data@, category_names@, i as int),
            decreases count - i,
        {
            let start: usize = 4 + NAME_SIZE * i;
            let name_len: usize = nul_terminated_len(data, start, len);
            if start + name_len >= len {
                proof {
                    Self::lemma_names_error_stays(data@, i as int + 1, count as int);
                }
                return Err(DicError::OutOfRange);
            }
            let name: &[u8] = slice_subrange(data, start, start + name_len);
            assert(name@ == Self::name_bytes(data@, i as int));
            let ghost names = category_names@;
            match string_from_utf8(name) {
                Some(text) => {
                    category_names.push(text);
                    proof {
                        assert forall|k: int| 0 <= k < i + 1 implies valid_utf8(
                            #[trigger] Self::name_bytes(data@, k),
                        ) && category_names@[k]@ == decode_utf8(Self::name_bytes(data@, k)) by {
                            if k < i {
                                assert(category_names@[k] == names[k]);
                            }
                        }
                    }
                },
                None => {
                    proof {
                        Self::lemma_names_error_stays(data@, i as int + 1, count as int);
                    }
                    return Err(DicError::NotUtf8);
                },
            }
            i = i + 1;
        }
        let mut code: usize = 0;
        while code < CODE_UNITS
            invariant
                len == data@.len(),
                count == Self::count(data@),
                offset == 4 + NAME_SIZE * count,
                offset + 4 * CODE_UNITS <= len,
                code <= CODE_UNITS,
                count <= MAX_CATEGORIES,
                Self::names_error(data@, count as int) is None,
                category_names@.len() == count,
                Self::names_read(data@, category_names@, count as int),
                forall|c: int| 0 <= c < code ==> Self::record_ok(data@, c),
            decreases CODE_UNITS - code,
        {
            let v: u32 = unpack_u32(data, offset + 4 * code);
            if ((v / 0x4_0000) % 0x100) as usize >= count {
                proof {
                    assert(!Self::record_ok(data@, code as int));
                }
                return Err(DicError::Category);
            }
            code = code + 1;
        }
        let cp = CharProperty { data, category_names, offset };
        proof {
            assert forall|c: int| 0 <= c < CODE_UNITS implies info_default_type(
                #[trigger] cp.word(c),
            ) < cp.category_names@.len() by {
                assert(Self::record_ok(data@, c));
            }
        }
        Ok(cp)
    }

    /// An error among the first names is the error among all names.
    proof fn lemma_names_error_stays(data: Seq<u8>, k: int, n: int)
        requires
            0 <= k <= n,
            Self::names_error(data, k) is Some,
        ensures
            Self::names_error(data, n) == Self::names_error(data, k),
        decreases n - k,
    {
        if k < n {
            Self::lemma_names_error_stays(data, k, n - 1);
        }
    }

    /// Whether the character encoded at `s[i]` belongs to the category `t`.
    pub open spec fn in_category(&self, s: Seq<u8>, i: int, t: u32) -> bool {
        mask_has(info_type(self.word(ucs2_at(s, i))) as u32, t)
    }

    /// Where a walk over the characters of category `t` ends that stands at
    /// byte `i` after `k` characters: at the first character outside the
    /// category or at the end of `s`, and at -1 once a 26th character
    /// belongs to the category.
    pub open spec fn group_walk(&self, s: Seq<u8>, t: u32, i: int, k: int) -> int
        decreases MAX_GROUPING_SIZE + 1 - k,
    {
        if i >= s.len() || !self.in_category(s, i, t) {
            i
        } else if k + 1 > MAX_GROUPING_SIZE + 1 {
            -1
        } else {
            self.group_walk(s, t, i + utf8_width(s[i]), k + 1)
        }
    }

    /// Length in bytes of the run of characters of category `t` that `s`
    /// starts with, or -1 where the run is longer than 25 characters.
    pub open spec fn group_length(&self, s: Seq<u8>, t: u32) -> int {
        self.group_walk(s, t, 0, 0)
    }

    /// Where a walk over `k` more characters of category `t` ends that
    /// stands at byte `i`, or -1 where `s` ends first or a character lies
    /// outside the category.
    pub open spec fn count_walk(&self, s: Seq<u8>, t: u32, i: int, k: int) -> int
        decreases k,
    {
        if k <= 0 {
            i
        } else if i >= s.len() || !self.in_category(s, i, t) {
            -1
        } else {
            self.count_walk(s, t, i + utf8_width(s[i]), k - 1)
        }
    }

    /// Length in bytes of the first `count` characters of `s`, or -1 unless
    /// all of them exist and belong to category `t`.
    pub open spec fn count_length(&self, s: Seq<u8>, t: u32, count: int) -> int {
        self.count_walk(s, t, 0, count)
    }

    /// The lengths of the first 1, 2, ... up to `n` characters of `s`, as
    /// far as all of them belong to category `t`.
    pub open spec fn counted(&self, s: Seq<u8>, t: u32, n: int) -> Seq<int>
        decreases n,
    {
        if n <= 0 {
            Seq::empty()
        } else {
            let before = self.counted(s, t, n - 1);
            if before.len() == n - 1 && self.count_length(s, t, n) >= 0 {
                before.push(self.count_length(s, t, n))
            } else {
                before
            }
        }
    }

    /// The lengths in bytes of the unknown words that `s` may start with:
    /// the whole run of the first character's category where the category
    /// groups, then the first 1, 2, ... characters as far as the category
    /// allows, and the first character alone where neither gives anything.
    pub open spec fn unknown_lengths(&self, s: Seq<u8>) -> Seq<int> {
        let w = self.word(ucs2_at(s, 0));
        let t = info_default_type(w) as u32;
        let grouped = if info_group(w) != 0 && self.group_length(s, t) > 0 {
            seq![self.group_length(s, t)]
        } else {
            Seq::empty()
        };
        let all = grouped + self.counted(s, t, info_length(w));
        if all.len() == 0 {
            seq![utf8_width(s[0])]
        } else {
            all
        }
    }

    /// Reads the record of `code_point`.  Returns its default category, its
    /// set of categories, its length limit, its group flag and its invoke
    /// flag.
    pub fn get_char_info(&self, code_point: u16) -> (r: (u32, u32, u32, u32, u32))
        requires
            self.offset + 4 * code_point + 4 <= self.data@.len(),
        ensures
            r.0 == info_default_type(self.word(code_point as int)),
            r.1 == info_type(self.word(code_point as int)),
            r.2 == info_length(self.word(code_point as int)),
            r.3 == info_group(self.word(code_point as int)),
            r.4 == info_invoke(self.word(code_point as int)),
    {
        let len: usize = self.data.len();
        let v: u32 = unpack_u32(self.data, self.offset + (code_point as usize) * 4);
        (
            (v / 0x4_0000) % 0x100,
            v % 0x4_0000,
            (v / 0x400_0000) % 0x10,
            (v / 0x4000_0000) % 2,
            v / 0x8000_0000,
        )
    }

    /// Whether the character encoded at `s[i]` belongs to category
    /// `default_type`.  Returns also the character's width in bytes.
    fn belongs(&self, s: &[u8], i: usize, default_type: u32) -> (r: (bool, usize))
        requires
            self.wf(),
            default_type < 32,
            i < s@.len(),
            complete_chars(s@),
        ensures
            r.0 == self.in_category(s@, i as int, default_type),
            r.1 == utf8_width(s@[i as int]),
            i + r.1 <= s@.len(),
    {
        let (ch16, ln) = utf8_to_ucs2(s, i);
        let info = self.get_char_info(ch16);
        (((1u32 << default_type) & info.1) != 0, ln)
    }

    /// Measures the run of characters of category `default_type` at the
    /// start of `s`.  Returns its length in bytes, or -1 where it is longer
    /// than 25 characters.
    pub fn get_group_length(&self, s: &[u8], default_type: u32) -> (r: isize)
        requires
            self.wf(),
            default_type < 32,
            complete_chars(s@),
            s@.len() <= isize::MAX,
        ensures
            r == self.group_length(s@, default_type),
            -1 <= r <= s@.len(),
    {
        let mut i: usize = 0;
        let mut char_count: u32 = 0;
        while i < s.len()
            invariant
                self.wf(),
                default_type < 32,
                complete_chars(s@),
                s@.len() <= isize::MAX,
                i <= s@.len(),
                char_count <= MAX_GROUPING_SIZE + 1,
                self.group_length(s@, default_type) == self.group_walk(
                    s@,
                    default_type,
                    i as int,
                    char_count as int,
                ),
            ensures
                i <= s@.len(),
                self.group_length(s@, default_type) == i,
            decreases MAX_GROUPING_SIZE + 1 - char_count,
        {
            let (inside, ln) = self.belongs(s, i, default_type);
            if inside {
                i = i + ln;
                char_count = char_count + 1;
                if char_count > MAX_GROUPING_SIZE + 1 {
                    return -1;
                }
            } else {
                break ;
            }
        }
        i as isize
    }

    /// Measures the first `count` characters of `s`.  Returns their length
    /// in bytes, or -1 unless all of them exist and belong to category
    /// `default_type`.
    pub fn get_count_length(&self, s: &[u8], default_type: u32, count: u32) -> (r: isize)
        requires
            self.wf(),
            default_type < 32,
            complete_chars(s@),
            s@.len() <= isize::MAX,
        ensures
            r == self.count_length(s@, default_type, count as int),
            -1 <= r <= s@.len(),
    {
        let mut i: usize = 0;
        let mut done: u32 = 0;
        while done < count
            invariant
                self.wf(),
                default_type < 32,
                complete_chars(s@),
                s@.len() <= isize::MAX,
                i <= s@.len(),
                done <= count,
                self.count_length(s@, default_type, count as int) == self.count_walk(
                    s@,
                    default_type,
                    i as int,
                    count - done,
                ),
            decreases count - done,
        {
            if i >= s.len() {
                return -1;
            }
            let (inside, ln) = self.belongs(s, i, default_type);
            if !inside {
                return -1;
            }
            i = i + ln;
            done = done + 1;
        }
        i as isize
    }

    /// Lists the lengths in bytes of the unknown words that `s` may start
    /// with.  Returns the default category of the first character, the
    /// lengths, and whether the category always offers unknown words.
    pub fn get_unknown_lengths(&self, s: &[u8]) -> (r: (u32, Vec<usize>, bool))
        requires
            self.wf(),
            s@.len() >= 1,
            complete_chars(s@),
            s@.len() <= isize::MAX,
        ensures
            r.0 == info_default_type(self.word(ucs2_at(s@, 0))),
            r.0 < self.category_names@.len(),
            r.1@.len() == self.unknown_lengths(s@).len(),
            forall|k: int|
                0 <= k < r.1@.len() ==> (#[trigger] r.1@[k]) == self.unknown_lengths(s@)[k],
            forall|k: int| 0 <= k < r.1@.len() ==> (#[trigger] r.1@[k]) <= s@.len(),
            r.2 == (info_invoke(self.word(ucs2_at(s@, 0))) == 1),
    {
        let mut ln_vec: Vec<usize> = Vec::new();
        let (ch16, first_ln) = utf8_to_ucs2(s, 0);
        let (default_type, _, count, group, invoke) = self.get_char_info(ch16);
        let ghost mut listed: Seq<int> = Seq::empty();
        if group != 0 {
            let ln: isize = self.get_group_length(s, default_type);
            if ln > 0 {
                ln_vec.push(ln as usize);
                proof {
                    listed = listed.push(ln as int);
                }
            }
        }
        let ghost grouped = listed;
        let mut n: u32 = 0;
        while n < count
            invariant
                self.wf(),
                default_type < 32,
                complete_chars(s@),
                s@.len() <= isize::MAX,
                n <= count <= 0xf,
                ln_vec@.len() == listed.len(),
                forall|k: int| 0 <= k < listed.len() ==> (#[trigger] ln_vec@[k]) == listed[k],
                forall|k: int| 0 <= k < listed.len() ==> 0 <= (#[trigger] listed[k]) <= s@.len(),
                listed == grouped + self.counted(s@, default_type, n as int),
                self.counted(s@, default_type, n as int).len() == n,
            ensures
                ln_vec@.len() == listed.len(),
                forall|k: int| 0 <= k < listed.len() ==> (#[trigger] ln_vec@[k]) == listed[k],
                forall|k: int| 0 <= k < listed.len() ==> 0 <= (#[trigger] listed[k]) <= s@.len(),
                listed == grouped + self.counted(s@, default_type, count as int),
            decreases count - n,
        {
            let ln: isize = self.get_count_length(s, default_type, n + 1);
            if ln < 0 {
                proof {
                    self.lemma_counted_stops(s@, default_type, n as int + 1, count as int);
                }
                break ;
            }
            ln_vec.push(ln as usize);
            proof {
                listed = listed.push(ln as int);
                assert(listed =~= grouped + self.counted(s@, default_type, n as int + 1));
            }
            n = n + 1;
        }
        proof {
            assert(listed == self.unknown_lengths(s@) || listed.len() == 0);
        }
        if ln_vec.len() == 0 {
            ln_vec.push(first_ln);
        }
        (default_type, ln_vec, invoke == 1)
    }

    /// Once the walk over `n` characters fails, longer walks add nothing.
    proof fn lemma_counted_stops(&self, s: Seq<u8>, t: u32, n: int, limit: int)
        requires
            1 <= n <= limit,
            self.counted(s, t, n - 1).len() == n - 1,
            self.count_length(s, t, n) < 0,
        ensures
            self.counted(s, t, limit) == self.counted(s, t, n - 1),
        decreases limit - n,
    {
        if n < limit {
            self.lemma_counted_stops(s, t, n, limit - 1);
        }
    }
}

/// Number of bytes of a dictionary file's header.
pub const HEADER_SIZE: usize = 72;

/// Number of bytes of a cell of the double array.
pub const CELL_SIZE: usize = 8;

/// Number of bytes of a token record.
pub const TOKEN_SIZE: usize = 16;

/// What a search finds along a key: the state it has reached, if it still
/// follows the trie, and the hits so far.
pub struct Scan {
    pub state: Option<int>,
    pub hits: Seq<(i32, usize)>,
}

/// A dictionary file: a double-array trie over byte keys, the token records
/// that its values point at, and their feature strings.
pub struct MeCabDic<'a> {
    pub data: &'a [u8],
    pub da_offset: usize,
    pub token_offset: usize,
    pub feature_offset: usize,
    pub feature_end: usize,
}

impl<'a> MeCabDic<'a> {
    /// Size in bytes of the double array, as the header states it.
    pub open spec fn dsize(data: Seq<u8>) -> int {
        le_u32(data, 24)
    }

    /// Size in bytes of the token records, as the header states it.
    pub open spec fn tsize(data: Seq<u8>) -> int {
        le_u32(data, 28)
    }

    /// Size in bytes of the feature strings, as the header states it.
    pub open spec fn fsize(data: Seq<u8>) -> int {
        le_u32(data, 32)
    }

    /// Whether `data` holds a header and the three sections that the header
    /// announces.
    pub open spec fn layout_ok(data: Seq<u8>) -> bool {
        data.len() >= HEADER_SIZE && HEADER_SIZE + Self::dsize(data) + Self::tsize(data)
            + Self::fsize(data) <= data.len()
    }

    /// The offsets are those that the header gives, and the sections lie
    /// inside the file.
    pub open spec fn wf(&self) -> bool {
        &&& Self::layout_ok(self.data@)
        &&& self.da_offset == HEADER_SIZE
        &&& self.token_offset == HEADER_SIZE + Self::dsize(self.data@)
        &&& self.feature_offset == self.token_offset + Self::tsize(self.data@)
        &&& self.feature_end == self.feature_offset + Self::fsize(self.data@)
    }

    /// Number of cells of the double array.
    pub open spec fn cells(&self) -> int {
        Self::dsize(self.data@) / (CELL_SIZE as int)
    }

    /// The base of cell `i`.
    pub open spec fn cell_base(&self, i: int) -> int {
        le_i32(self.data@, HEADER_SIZE + CELL_SIZE * i)
    }

    /// The check of cell `i`, read as a signed number like the base it is
    /// compared with.
    pub open spec fn cell_check(&self, i: int) -> int {
        signed32(le_u32(self.data@, HEADER_SIZE + CELL_SIZE * i + 4))
    }

    /// Where the byte `c` leads from the state `b`: to the base of the cell
    /// `b + c + 1` if that cell's check is `b`, and nowhere otherwise.
    pub open spec fn step(&self, b: int, c: u8) -> Result<Option<int>, DicError> {
        let p = b + c + 1;
        if !(0 <= p < self.cells()) {
            Err(DicError::OutOfRange)
        } else if self.cell_check(p) == b {
            Ok(Some(self.cell_base(p)))
        } else {
            Ok(None)
        }
    }

    /// The value stored for the key that ends in the state `b`, if one is:
    /// the cell `b` has the check `b` and a negative base, which encodes
    /// the value.
    pub open spec fn terminal(&self, b: int) -> Result<Option<i32>, DicError> {
        if !(0 <= b < self.cells()) {
            Err(DicError::OutOfRange)
        } else if self.cell_check(b) == b && self.cell_base(b) < 0 {
            Ok(Some((-self.cell_base(b) - 1) as i32))
        } else {
            Ok(None)
        }
    }

    /// The state in which the trie is entered.
    pub open spec fn root(&self) -> Result<int, DicError> {
        if self.cells() >= 1 {
            Ok(self.cell_base(0))
        } else {
            Err(DicError::OutOfRange)
        }
    }

    /// The state reached after the bytes of `key`, if they follow the trie.
    pub open spec fn walk(&self, key: Seq<u8>) -> Result<Option<int>, DicError>
        decreases key.len(),
    {
        if key.len() == 0 {
            match self.root() {
                Ok(b) => Ok(Some(b)),
                Err(e) => Err(e),
            }
        } else {
            match self.walk(key.drop_last()) {
                Ok(Some(b)) => self.step(b, key.last()),
                other => other,
            }
        }
    }

    /// The value stored for exactly `key`, or -1 if there is none.
    pub open spec fn exact_match(&self, key: Seq<u8>) -> Result<i32, DicError> {
        match self.walk(key) {
            Err(e) => Err(e),
            Ok(None) => Ok(-1i32),
            Ok(Some(b)) => match self.terminal(b) {
                Err(e) => Err(e),
                Ok(None) => Ok(-1i32),
                Ok(Some(v)) => Ok(v),
            },
        }
    }

    /// Records the value stored for the `n` bytes that lead to the state
    /// `b`, if there is one.
    pub open spec fn visit(&self, b: int, n: int, hits: Seq<(i32, usize)>) -> Result<
        Scan,
        DicError,
    > {
        match self.terminal(b) {
            Err(e) => Err(e),
            Ok(None) => Ok(Scan { state: Some(b), hits }),
            Ok(Some(v)) => Ok(Scan { state: Some(b), hits: hits.push((v, n as usize)) }),
        }
    }

    /// The search along `key`: the values stored for the prefixes of `key`,
    /// shortest first, each with the length of its prefix.
    pub open spec fn scan(&self, key: Seq<u8>) -> Result<Scan, DicError>
        decreases key.len(),
    {
        if key.len() == 0 {
            match self.root() {
                Ok(b) => self.visit(b, 0, Seq::empty()),
                Err(e) => Err(e),
            }
        } else {
            match self.scan(key.drop_last()) {
                Err(e) => Err(e),
                Ok(before) => match before.state {
                    None => Ok(before),
                    Some(b) => match self.step(b, key.last()) {
                        Err(e) => Err(e),
                        Ok(None) => Ok(Scan { state: None, hits: before.hits }),
                        Ok(Some(next)) => self.visit(next, key.len() as int, before.hits),
                    },
                },
            }
        }
    }

    /// The values stored for the prefixes of `key`, shortest first, each
    /// with the length of its prefix.
    pub open spec fn prefix_hits(&self, key: Seq<u8>) -> Result<Seq<(i32, usize)>, DicError> {
        match self.scan(key) {
            Err(e) => Err(e),
            Ok(found) => Ok(found.hits),
        }
    }

    /// Reads the header of a dictionary file.
    pub fn open(data: &'a [u8]) -> (r: Result<MeCabDic<'a>, DicError>)
        ensures
            r is Ok <==> Self::layout_ok(data@),
            r matches Ok(dic) ==> dic.wf() && dic.data@ == data@,
            r matches Err(e) ==> e == DicError::Truncated,
    {
        let len: usize = data.len();
        if len < HEADER_SIZE {
            return Err(DicError::Truncated);
        }
        let dsize: u32 = unpack_u32(data, 24);
        let tsize: u32 = unpack_u32(data, 28);
        let fsize: u32 = unpack_u32(data, 32);
        let end: u64 = HEADER_SIZE as u64 + dsize as u64 + tsize as u64 + fsize as u64;
        if (len as u64) < end {
            return Err(DicError::Truncated);
        }
        let token_offset: usize = HEADER_SIZE + dsize as usize;
        let feature_offset: usize = token_offset + tsize as usize;
        Ok(
            MeCabDic {
                data,
                da_offset: HEADER_SIZE,
                token_offset,
                feature_offset,
                feature_end: feature_offset + fsize as usize,
            },
        )
    }

    /// Reads the cell `idx` of the double array.  Returns its base and its
    /// check, or nothing where the array has no such cell.
    pub fn base_check(&self, idx: i64) -> (r: Option<(i32, i32)>)
        requires
            self.wf(),
        ensures
            r is Some <==> 0 <= idx < self.cells(),
            r matches Some(cell) ==> cell.0 == self.cell_base(idx as int) && cell.1
                == self.cell_check(idx as int),
    {
        let cells: usize = (self.token_offset - self.da_offset) / CELL_SIZE;
        if idx < 0 || idx >= cells as i64 {
            return None;
        }
        let i: usize = self.da_offset + (idx as usize) * CELL_SIZE;
        let len: usize = self.data.len();
        let check: u32 = unpack_u32(self.data, i + 4);
        let signed: i32 = if check < 0x8000_0000 {
            check as i32
        } else {
            let low: i32 = (check - 0x8000_0000) as i32;
            low + i32::MIN
        };
        Some((unpack_i32(self.data, i), signed))
    }

    /// Looks the state `b` up for a stored value.
    fn value_at(&self, b: i32) -> (r: Result<Option<i32>, DicError>)
        requires
            self.wf(),
        ensures
            r == self.terminal(b as int),
    {
        match self.base_check(b as i64) {
            None => Err(DicError::OutOfRange),
            Some((n, check)) => {
                if b == check && n < 0 {
                    Ok(Some(-(n + 1)))
                } else {
                    Ok(None)
                }
            },
        }
    }

    /// Follows the byte `c` from the state `b`.
    fn follow(&self, b: i32, c: u8) -> (r: Result<Option<i32>, DicError>)
        requires
            self.wf(),
        ensures
            match self.step(b as int, c) {
                Err(e) => r == Err::<Option<i32>, DicError>(e),
                Ok(None) => r == Ok::<Option<i32>, DicError>(None),
                Ok(Some(next)) => r == Ok::<Option<i32>, DicError>(Some(next as i32)) && next
                    == next as i32,
            },
    {
        match self.base_check(b as i64 + c as i64 + 1) {
            None => Err(DicError::OutOfRange),
            Some((base, check)) => {
                if b == check {
                    Ok(Some(base))
                } else {
                    Ok(None)
                }
            },
        }
    }

    /// Searches for exactly the key `s`.  Returns the value stored for it,
    /// or -1 where there is none.
    pub fn exact_match_search(&self, s: &[u8]) -> (r: Result<i32, DicError>)
        requires
            self.wf(),
        ensures
            r == self.exact_match(s@),
            r matches Ok(v) ==> v >= -1,
    {
        let mut b: i32 = match self.base_check(0) {
            None => {
                proof {
                    self.lemma_walk_stuck(s@, 0);
                }
                return Err(DicError::OutOfRange);
            },
            Some((base, _)) => base,
        };
        let mut i: usize = 0;
        while i < s.len()
            invariant
                self.wf(),
                i <= s@.len(),
                self.walk(s@.take(i as int)) == Ok::<Option<int>, DicError>(Some(b as int)),
            decreases s@.len() - i,
        {
            proof {
                assert(s@.take(i as int + 1).drop_last() =~= s@.take(i as int));
            }
            match self.follow(b, s[i]) {
                Err(e) => {
                    proof {
                        self.lemma_walk_stuck(s@, i as int + 1);
                    }
                    return Err(e);
                },
                Ok(None) => {
                    proof {
                        self.lemma_walk_stuck(s@, i as int + 1);
                    }
                    return Ok(-1);
                },
                Ok(Some(base)) => {
                    b = base;
                },
            }
            i = i + 1;
        }
        proof {
            assert(s@.take(s@.len() as int) =~= s@);
        }
        match self.value_at(b) {
            Err(e) => Err(e),
            Ok(None) => Ok(-1),
            Ok(Some(v)) => Ok(v),
        }
    }

    /// A walk that has failed or left the trie stays as it is however the
    /// key goes on.
    proof fn lemma_walk_stuck(&self, key: Seq<u8>, i: int)
        requires
            0 <= i <= key.len(),
            !(self.walk(key.take(i)) matches Ok(Some(b))),
        ensures
            self.walk(key) == self.walk(key.take(i)),
        decreases key.len() - i,
    {
        if i < key.len() {
            assert(key.take(i + 1).drop_last() =~= key.take(i));
            self.lemma_walk_stuck(key, i + 1);
        } else {
            assert(key.take(i) =~= key);
        }
    }

    /// A search that has failed or left the trie stays as it is however the
    /// key goes on.
    proof fn lemma_scan_stuck(&self, key: Seq<u8>, i: int)
        requires
            0 <= i <= key.len(),
            !(self.scan(key.take(i)) matches Ok(found) && found.state is Some),
        ensures
            self.scan(key) == self.scan(key.take(i)),
        decreases key.len() - i,
    {
        if i < key.len() {
            assert(key.take(i + 1).drop_last() =~= key.take(i));
            self.lemma_scan_stuck(key, i + 1);
        } else {
            assert(key.take(i) =~= key);
        }
    }

    /// Searches for the keys that are prefixes of `s`.  Returns the value
    /// stored for each, shortest first, with the length of the prefix.
    pub fn common_prefix_search(&self, s: &[u8]) -> (r: Result<Vec<(i32, usize)>, DicError>)
        requires
            self.wf(),
        ensures
            match self.prefix_hits(s@) {
                Err(e) => r matches Err(x) && x == e,
                Ok(hits) => r matches Ok(found) && found@ == hits,
            },
            r matches Ok(found) ==> forall|k: int|
                0 <= k < found@.len() ==> (#[trigger] found@[k]).0 >= 0 && found@[k].1 <= s@.len(),
    {
        let mut results: Vec<(i32, usize)> = Vec::new();
        let mut b: i32 = match self.base_check(0) {
            None => {
                proof {
                    self.lemma_scan_stuck(s@, 0);
                }
                return Err(DicError::OutOfRange);
            },
            Some((base, _)) => base,
        };
        proof {
            assert(s@.take(0) =~= Seq::<u8>::empty());
        }
        let mut i: usize = 0;
        while i < s.len()
            invariant
                self.wf(),
                i <= s@.len(),
                self.scan(s@.take(i as int)) == self.visit(b as int, i as int, results@),
                forall|k: int|
                    0 <= k < results@.len() ==> (#[trigger] results@[k]).0 >= 0 && results@[k].1
                        <= s@.len(),
            decreases s@.len() - i,
        {
            match self.value_at(b) {
                Err(e) => {
                    proof {
                        self.lemma_scan_stuck(s@, i as int);
                    }
                    return Err(e);
                },
                Ok(None) => {},
                Ok(Some(v)) => {
                    results.push((v, i));
                },
            }
            proof {
                assert(s@.take(i as int + 1).drop_last() =~= s@.take(i as int));
            }
            match self.follow(b, s[i]) {
                Err(e) => {
                    proof {
                        self.lemma_scan_stuck(s@, i as int + 1);
                    }
                    return Err(e);
                },
                Ok(None) => {
                    proof {
                        self.lemma_scan_stuck(s@, i as int + 1);
                    }
                    return Ok(results);
                },
                Ok(Some(base)) => {
                    b = base;
                },
            }
            i = i + 1;
        }
        proof {
            assert(s@.take(s@.len() as int) =~= s@);
        }
        match self.value_at(b) {
            Err(e) => Err(e),
            Ok(None) => Ok(results),
            Ok(Some(v)) => {
                results.push((v, s.len()));
                Ok(results)
            },
        }
    }

    /// Along a longer key the search passes through what it finds along a
    /// shorter one: it fails where the shorter search fails, and otherwise
    /// its hits begin with the hits of the shorter search.
    proof fn lemma_scan_grows(&self, key: Seq<u8>, i: int)
        requires
            0 <= i <= key.len(),
        ensures
            self.scan(key.take(i)) matches Err(e) ==> self.scan(key) == Err::<Scan, DicError>(e),
            self.scan(key) matches Ok(long) ==> self.scan(key.take(i)) matches Ok(short)
                && short.hits.len() <= long.hits.len() && forall|t: int|
                0 <= t < short.hits.len() ==> long.hits[t] == short.hits[t],
        decreases key.len() - i,
    {
        if i < key.len() {
            assert(key.take(i + 1).drop_last() =~= key.take(i));
            self.lemma_scan_grows(key, i + 1);
        } else {
            assert(key.take(i) =~= key);
        }
    }

    /// The hits for a key are among the hits for every key that it is a
    /// prefix of, and a search that fails for a key fails for every such
    /// key.
    pub proof fn lemma_prefix_search_grows(&self, short: Seq<u8>, long: Seq<u8>)
        requires
            short.len() <= long.len(),
            long.take(short.len() as int) == short,
        ensures
            self.prefix_hits(short) matches Err(e) ==> self.prefix_hits(long) == Err::<
                Seq<(i32, usize)>,
                DicError,
            >(e),
            self.prefix_hits(long) matches Ok(more) ==> self.prefix_hits(short) matches Ok(fewer)
                && forall|t: int| 0 <= t < fewer.len() ==> more.contains(#[trigger] fewer[t]),
    {
        self.lemma_scan_grows(long, short.len() as int);
        if let Ok(found) = self.scan(long) {
            let fewer = self.scan(short)->Ok_0.hits;
            assert forall|t: int| 0 <= t < fewer.len() implies found.hits.contains(
                #[trigger] fewer[t],
            ) by {
                assert(found.hits[t] == fewer[t]);
            }
        }
    }

    /// Number of token records.
    pub open spec fn records(&self) -> int {
        Self::tsize(self.data@) / (TOKEN_SIZE as int)
    }

    /// Offset of the token record `r`.
    pub open spec fn record_start(&self, r: int) -> int {
        self.token_offset + TOKEN_SIZE * r
    }

    /// Offset of the feature string of the token record `r`.
    pub open spec fn feature_start(&self, r: int) -> int {
        self.feature_offset + le_u32(self.data@, self.record_start(r) + 8)
    }

    /// Length of the feature string of the token record `r`.
    pub open spec fn feature_len(&self, r: int) -> int {
        nul_distance(self.data@, self.feature_start(r), self.feature_end as int)
    }

    /// The entry that the token record `r` gives for a surface: its context
    /// ids, its part of speech, its cost and its feature string.  There is
    /// none where the record lies outside the token section or its feature
    /// string does not end inside the feature section.
    pub open spec fn entry(&self, r: int, surface: Seq<u8>, skip: bool) -> Result<
        EntryView,
        DicError,
    > {
        if !(0 <= r < self.records()) {
            Err(DicError::OutOfRange)
        } else if self.feature_start(r) + self.feature_len(r) >= self.feature_end {
            Err(DicError::OutOfRange)
        } else {
            Ok(
                EntryView {
                    original: surface,
                    lc_attr: le_u16(self.data@, self.record_start(r)) as u16,
                    rc_attr: le_u16(self.data@, self.record_start(r) + 2) as u16,
                    posid: le_u16(self.data@, self.record_start(r) + 4) as u16,
                    wcost: le_i16(self.data@, self.record_start(r) + 6) as i16,
                    feature: self.data@.subrange(
                        self.feature_start(r),
                        self.feature_start(r) + self.feature_len(r),
                    ),
                    skip,
                },
            )
        }
    }

    /// The entries that the `count` token records from `index` on give for
    /// a surface, in their order.
    pub open spec fn run(&self, index: int, count: int, surface: Seq<u8>, skip: bool) -> Result<
        Seq<EntryView>,
        DicError,
    >
        decreases count,
    {
        if count <= 0 {
            Ok(Seq::empty())
        } else {
            match self.run(index, count - 1, surface, skip) {
                Err(e) => Err(e),
                Ok(before) => match self.entry(index + count - 1, surface, skip) {
                    Err(e) => Err(e),
                    Ok(last) => Ok(before.push(last)),
                },
            }
        }
    }

    /// The entries that a stored value, which is not negative, points at:
    /// the value's low byte counts the records, the bits above give the
    /// first of them.
    pub open spec fn value_run(&self, value: i32, surface: Seq<u8>, skip: bool) -> Result<
        Seq<EntryView>,
        DicError,
    > {
        self.run(value as int / 0x100, value as int % 0x100, surface, skip)
    }

    /// The entries for the first `k` of the hits for `s`.
    pub open spec fn gather(&self, hits: Seq<(i32, usize)>, s: Seq<u8>, k: int) -> Result<
        Seq<EntryView>,
        DicError,
    >
        decreases k,
    {
        if k <= 0 {
            Ok(Seq::empty())
        } else {
            match self.gather(hits, s, k - 1) {
                Err(e) => Err(e),
                Ok(before) => match self.value_run(
                    hits[k - 1].0,
                    s.take(hits[k - 1].1 as int),
                    false,
                ) {
                    Err(e) => Err(e),
                    Ok(more) => Ok(before + more),
                },
            }
        }
    }

    /// The entries for all keys that are prefixes of `s`, shortest key
    /// first.
    pub open spec fn lookup_spec(&self, s: Seq<u8>) -> Result<Seq<EntryView>, DicError> {
        match self.prefix_hits(s) {
            Err(e) => Err(e),
            Ok(hits) => self.gather(hits, s, hits.len() as int),
        }
    }

    /// The entries of the run `value` for the first `k` of the surfaces
    /// that `s` starts with in the lengths `lens`.
    pub open spec fn collect(
        &self,
        value: i32,
        s: Seq<u8>,
        lens: Seq<int>,
        skip: bool,
        k: int,
    ) -> Result<Seq<EntryView>, DicError>
        decreases k,
    {
        if k <= 0 {
            Ok(Seq::empty())
        } else {
            match self.collect(value, s, lens, skip, k - 1) {
                Err(e) => Err(e),
                Ok(before) => match self.value_run(value, s.take(lens[k - 1]), skip) {
                    Err(e) => Err(e),
                    Ok(more) => Ok(before + more),
                },
            }
        }
    }

    /// The unknown words that `s` may start with: the entries that this
    /// dictionary stores under the name of the first character's category,
    /// once for each length that the character table allows, and marked to
    /// be bridged over where that category is `SPACE`.  There are none
    /// where the dictionary stores nothing under that name.
    pub open spec fn unknowns_spec(&self, s: Seq<u8>, cp: CharProperty) -> Result<
        Seq<EntryView>,
        DicError,
    > {
        let name = CharProperty::name_bytes(
            cp.data@,
            info_default_type(cp.word(ucs2_at(s, 0))),
        );
        match self.exact_match(name) {
            Err(e) => Err(e),
            Ok(value) => if value < 0 {
                Err(DicError::MissingCategory)
            } else {
                self.collect(
                    value,
                    s,
                    cp.unknown_lengths(s),
                    name == space_name(),
                    cp.unknown_lengths(s).len() as int,
                )
            },
        }
    }

    /// Reads the `count` token records from `idx` on.  Returns an entry for
    /// each, with the first `s_len` bytes of `s` as its surface.
    pub fn get_entries_by_index(
        &self,
        idx: u32,
        count: u32,
        s: &'a [u8],
        s_len: usize,
        skip: bool,
    ) -> (r: Result<Vec<DicEntry<'a>>, DicError>)
        requires
            self.wf(),
            s_len <= s@.len(),
        ensures
            match self.run(idx as int, count as int, s@.take(s_len as int), skip) {
                Err(e) => r matches Err(x) && x == e,
                Ok(entries) => r matches Ok(found) && entry_views(found@) == entries,
            },
    {
        let mut results: Vec<DicEntry<'a>> = Vec::new();
        let surface: &'a [u8] = slice_subrange(s, 0, s_len);
        let len: usize = self.data.len();
        let records: usize = (self.feature_offset - self.token_offset) / TOKEN_SIZE;
        let mut i: u32 = 0;
        proof {
            assert(entry_views(results@) =~= Seq::<EntryView>::empty());
        }
        while i < count
            invariant
                self.wf(),
                len == self.data@.len(),
                records == self.records(),
                surface@ == s@.take(s_len as int),
                i <= count,
                self.run(idx as int, i as int, surface@, skip) == Ok::<Seq<EntryView>, DicError>(
                    entry_views(results@),
                ),
            decreases count - i,
        {
            let r: u64 = idx as u64 + i as u64;
            if r >= records as u64 {
                proof {
                    self.lemma_run_stuck(idx as int, i as int + 1, count as int, surface@, skip);
                }
                return Err(DicError::OutOfRange);
            }
            let offset: usize = self.token_offset + (r as usize) * TOKEN_SIZE;
            let lc_attr: u16 = unpack_u16(self.data, offset);
            let rc_attr: u16 = unpack_u16(self.data, offset + 2);
            let posid: u16 = unpack_u16(self.data, offset + 4);
            let wcost: i16 = unpack_i16(self.data, offset + 6);
            let feature: u32 = unpack_u32(self.data, offset + 8);
            if feature as u64 >= (self.feature_end - self.feature_offset) as u64 {
                proof {
                    self.lemma_run_stuck(idx as int, i as int + 1, count as int, surface@, skip);
                }
                return Err(DicError::OutOfRange);
            }
            let start: usize = self.feature_offset + feature as usize;
            let feature_len: usize = nul_terminated_len(self.data, start, self.feature_end);
            if start + feature_len >= self.feature_end {
                proof {
                    self.lemma_run_stuck(idx as int, i as int + 1, count as int, surface@, skip);
                }
                return Err(DicError::OutOfRange);
            }
            let entry = DicEntry {
                original: surface,
                lc_attr,
                rc_attr,
                posid,
                wcost,
                feature: slice_subrange(self.data, start, start + feature_len),
                skip,
            };
            let ghost before = results@;
            results.push(entry);
            proof {
                assert(entry_views(results@) =~= entry_views(before).push(entry@));
            }
            i = i + 1;
        }
        Ok(results)
    }

    /// A run that fails at one record fails however many records follow.
    proof fn lemma_run_stuck(
        &self,
        index: int,
        k: int,
        count: int,
        surface: Seq<u8>,
        skip: bool,
    )
        requires
            0 <= k <= count,
            self.run(index, k, surface, skip) is Err,
        ensures
            self.run(index, count, surface, skip) == self.run(index, k, surface, skip),
        decreases count - k,
    {
        if k < count {
            self.lemma_run_stuck(index, k, count - 1, surface, skip);
        }
    }

    /// Reads the run of token records that the value `result` points at.
    pub fn get_entries(&self, result: u32, s: &'a [u8], s_len: usize, skip: bool) -> (r: Result<
        Vec<DicEntry<'a>>,
        DicError,
    >)
        requires
            self.wf(),
            s_len <= s@.len(),
        ensures
            match self.run(
                result as int / 0x100,
                result as int % 0x100,
                s@.take(s_len as int),
                skip,
            ) {
                Err(e) => r matches Err(x) && x == e,
                Ok(entries) => r matches Ok(found) && entry_views(found@) == entries,
            },
    {
        let index: u32 = result / 0x100;
        let count: u32 = result % 0x100;
        self.get_entries_by_index(index, count, s, s_len, skip)
    }

    /// Reads the run that `value` points at for the first `len` bytes of
    /// `s` and puts its entries behind `results`.
    fn append_run(
        &self,
        results: &mut Vec<DicEntry<'a>>,
        value: u32,
        s: &'a [u8],
        len: usize,
        skip: bool,
    ) -> (r: Result<(), DicError>)
        requires
            self.wf(),
            len <= s@.len(),
            surfaces_start(old(results)@, s@),
        ensures
            match self.run(value as int / 0x100, value as int % 0x100, s@.take(len as int), skip) {
                Err(e) => r matches Err(x) && x == e,
                Ok(more) => r is Ok && entry_views(final(results)@) == entry_views(old(results)@)
                    + more,
            },
            r is Ok ==> surfaces_start(final(results)@, s@),
    {
        let mut new_results: Vec<DicEntry<'a>> = match self.get_entries(value, s, len, skip) {
            Err(e) => {
                return Err(e);
            },
            Ok(found) => found,
        };
        let ghost before = results@;
        let ghost more = new_results@;
        proof {
            self.lemma_run_surfaces(
                value as int / 0x100,
                value as int % 0x100,
                s@.take(len as int),
                skip,
            );
        }
        results.append(&mut new_results);
        proof {
            assert(entry_views(results@) =~= entry_views(before) + entry_views(more));
            assert forall|t: int| 0 <= t < results@.len() implies (
            #[trigger] results@[t]).original@.len() <= s@.len() && results@[t].original@
                == s@.take(results@[t].original@.len() as int) by {
                if t >= before.len() {
                    assert(results@[t] == more[t - before.len()]);
                    assert(entry_views(more)[t - before.len()] == more[t - before.len()]@);
                    assert(s@.take(len as int).len() == len);
                } else {
                    assert(results@[t] == before[t]);
                }
            }
        }
        Ok(())
    }

    /// Looks up every key that is a prefix of `s`.  Returns the entries of
    /// all of them, shortest key first.
    pub fn lookup(&self, s: &'a [u8]) -> (r: Result<Vec<DicEntry<'a>>, DicError>)
        requires
            self.wf(),
        ensures
            match self.lookup_spec(s@) {
                Err(e) => r matches Err(x) && x == e,
                Ok(entries) => r matches Ok(found) && entry_views(found@) == entries,
            },
            r matches Ok(found) ==> surfaces_start(found@, s@),
    {
        let mut results: Vec<DicEntry<'a>> = Vec::new();
        let hits: Vec<(i32, usize)> = match self.common_prefix_search(s) {
            Err(e) => {
                return Err(e);
            },
            Ok(hits) => hits,
        };
        proof {
            assert(entry_views(results@) =~= Seq::<EntryView>::empty());
        }
        let mut k: usize = 0;
        while k < hits.len()
            invariant
                self.wf(),
                self.prefix_hits(s@) == Ok::<Seq<(i32, usize)>, DicError>(hits@),
                forall|t: int|
                    0 <= t < hits@.len() ==> (#[trigger] hits@[t]).0 >= 0 && hits@[t].1 <= s@.len(),
                k <= hits@.len(),
                self.gather(hits@, s@, k as int) == Ok::<Seq<EntryView>, DicError>(
                    entry_views(results@),
                ),
                surfaces_start(results@, s@),
            decreases hits@.len() - k,
        {
            let (result, len) = hits[k];
            match self.append_run(&mut results, result as u32, s, len, false) {
                Err(e) => {
                    proof {
                        self.lemma_gather_stuck(hits@, s@, k as int + 1, hits@.len() as int);
                    }
                    return Err(e);
                },
                Ok(()) => {},
            }
            k = k + 1;
        }
        Ok(results)
    }

    /// Every entry of a run carries the surface it was read for.
    proof fn lemma_run_surfaces(&self, index: int, count: int, surface: Seq<u8>, skip: bool)
        ensures
            self.run(index, count, surface, skip) matches Ok(entries) ==> entries.len() == (if count
                > 0 {
                count
            } else {
                0
            }) && forall|t: int|
                0 <= t < entries.len() ==> (#[trigger] entries[t]).original == surface
                    && entries[t].skip == skip,
        decreases count,
    {
        if count > 0 {
            self.lemma_run_surfaces(index, count - 1, surface, skip);
        }
    }

    /// Offers the unknown words that `s` may start with.  Returns their
    /// entries, and whether the first character's category offers unknown
    /// words even where a dictionary has matched.
    pub fn lookup_unknowns(&self, s: &'a [u8], cp: &CharProperty) -> (r: Result<
        (Vec<DicEntry<'a>>, bool),
        DicError,
    >)
        requires
            self.wf(),
            cp.wf(),
            s@.len() >= 1,
            complete_chars(s@),
            s@.len() <= isize::MAX,
        ensures
            match self.unknowns_spec(s@, *cp) {
                Err(e) => r matches Err(x) && x == e,
                Ok(entries) => r matches Ok(found) && entry_views(found.0@) == entries && found.1
                    == (info_invoke(cp.word(ucs2_at(s@, 0))) == 1),
            },
            r matches Ok(found) ==> surfaces_start(found.0@, s@),
    {
        let (default_type, ln_vec, invoke) = cp.get_unknown_lengths(s);
        let category_name: &[u8] = cp.category_names[default_type as usize].as_str().as_bytes();
        proof {
            let stored = CharProperty::name_bytes(cp.data@, default_type as int);
            assert(valid_utf8(stored));
            vstd::utf8::decode_utf8_encode_utf8(stored);
            assert(category_name@ == stored);
        }
        let result: i32 = match self.exact_match_search(category_name) {
            Err(e) => {
                return Err(e);
            },
            Ok(result) => result,
        };
        if result < 0 {
            return Err(DicError::MissingCategory);
        }
        let value: u32 = result as u32;
        let skip: bool = is_space(category_name);
        let ghost lens = cp.unknown_lengths(s@);
        let mut results: Vec<DicEntry<'a>> = Vec::new();
        proof {
            assert(entry_views(results@) =~= Seq::<EntryView>::empty());
        }
        let mut k: usize = 0;
        while k < ln_vec.len()
            invariant
                self.wf(),
                value == result,
                self.unknowns_spec(s@, *cp) == self.collect(
                    result,
                    s@,
                    lens,
                    skip,
                    lens.len() as int,
                ),
                lens.len() == ln_vec@.len(),
                forall|t: int| 0 <= t < ln_vec@.len() ==> (#[trigger] ln_vec@[t]) == lens[t],
                forall|t: int| 0 <= t < ln_vec@.len() ==> (#[trigger] ln_vec@[t]) <= s@.len(),
                k <= ln_vec@.len(),
                self.collect(result, s@, lens, skip, k as int) == Ok::<Seq<EntryView>, DicError>(
                    entry_views(results@),
                ),
                surfaces_start(results@, s@),
            decreases ln_vec@.len() - k,
        {
            let len: usize = ln_vec[k];
            match self.append_run(&mut results, value, s, len, skip) {
                Err(e) => {
                    proof {
                        self.lemma_collect_stuck(
                            result,
                            s@,
                            lens,
                            skip,
                            k as int + 1,
                            lens.len() as int,
                        );
                    }
                    return Err(e);
                },
                Ok(()) => {},
            }
            k = k + 1;
        }
        Ok((results, invoke))
    }

    /// A collection that fails at one length fails however many lengths
    /// follow.
    proof fn lemma_collect_stuck(
        &self,
        value: i32,
        s: Seq<u8>,
        lens: Seq<int>,
        skip: bool,
        k: int,
        n: int,
    )
        requires
            0 <= k <= n,
            self.collect(value, s, lens, skip, k) is Err,
        ensures
            self.collect(value, s, lens, skip, n) == self.collect(value, s, lens, skip, k),
        decreases n - k,
    {
        if k < n {
            self.lemma_collect_stuck(value, s, lens, skip, k, n - 1);
        }
    }

    /// A lookup that fails at one hit fails however many hits follow.
    proof fn lemma_gather_stuck(&self, hits: Seq<(i32, usize)>, s: Seq<u8>, k: int, n: int)
        requires
            0 <= k <= n,
            self.gather(hits, s, k) is Err,
        ensures
            self.gather(hits, s, n) == self.gather(hits, s, k),
        decreases n - k,
    {
        if k < n {
            self.lemma_gather_stuck(hits, s, k, n - 1);
        }
    }
}

/// Whether `name` is the name of the category of white space.
pub fn is_space(name: &[u8]) -> (b: bool)
    ensures
        b == (name@ == space_name()),
{
    let b = name.len() == 5 && name[0] == 0x53 && name[1] == 0x50 && name[2] == 0x41 && name[3]
        == 0x43 && name[4] == 0x45;
    proof {
        if b {
            assert(name@ =~= space_name());
        } else if name@.len() == 5 {
            assert(space_name()[0] == 0x53 && space_name()[1] == 0x50 && space_name()[2] == 0x41
                && space_name()[3] == 0x43 && space_name()[4] == 0x45);
        }
    }
    b
}

/// Every entry's surface is the start of `s`.
pub open spec fn surfaces_start(entries: Seq<DicEntry>, s: Seq<u8>) -> bool {
    forall|t: int|
        0 <= t < entries.len() ==> (#[trigger] entries[t]).original@.len() <= s.len()
            && entries[t].original@ == s.take(entries[t].original@.len() as int)
}

/// The bytes of the name of the category of white space.
pub open spec fn space_name() -> Seq<u8> {
    seq![0x53u8, 0x50u8, 0x41u8, 0x43u8, 0x45u8]
}

/// What an entry holds, with its surface and its feature as byte strings.
pub struct EntryView {
    pub original: Seq<u8>,
    pub lc_attr: u16,
    pub rc_attr: u16,
    pub posid: u16,
    pub wcost: i16,
    pub feature: Seq<u8>,
    pub skip: bool,
}

impl<'a> View for DicEntry<'a> {
    type V = EntryView;

    open spec fn view(&self) -> EntryView {
        EntryView {
            original: self.original@,
            lc_attr: self.lc_attr,
            rc_attr: self.rc_attr,
            posid: self.posid,
            wcost: self.wcost,
            feature: self.feature@,
            skip: self.skip,
        }
    }
}

/// What each of the entries holds.
pub open spec fn entry_views(entries: Seq<DicEntry>) -> Seq<EntryView> {
    Seq::new(entries.len(), |i: int| entries[i]@)
}

} // verus!
