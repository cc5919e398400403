//! The tokenizer: it fills a lattice with what the dictionaries offer at each
//! position of an input and reads the cheapest paths off it.

use crate::dic::{
    entry_views, info_invoke, surfaces_start, CharProperty, DicEntry, DicError, EntryView,
    Matrix, MeCabDic,
};
use crate::lattice::{feature_of, path_cost, surface_of, surfaces, Lattice, Node};
use crate::nbest::{costs_at_least, found_in, is_lattice_path, path_views};
use crate::ucs2::{
    complete_chars, lemma_complete_chars_suffix, lemma_valid_utf8_complete, ucs2_at,
};
use vstd::prelude::*;
use vstd::slice::slice_subrange;
use vstd::utf8::{decode_utf8, encode_utf8, valid_utf8};

verus! {

/// The longest input, in bytes, that a lattice has positions for.
pub const MAX_INPUT: usize = 0x7fff_fffd;

/// What a lattice keeps of a dictionary entry.
pub struct Face {
    pub surface: Seq<u8>,
    pub left_id: int,
    pub right_id: int,
    pub cost: i16,
    pub feature: Seq<u8>,
    pub skip: bool,
}

/// What a lattice keeps of the entry `e`.
pub open spec fn entry_face(e: EntryView) -> Face {
    Face {
        surface: e.original,
        left_id: e.lc_attr as int,
        right_id: e.rc_attr as int,
        cost: e.wcost,
        feature: e.feature,
        skip: e.skip,
    }
}

/// What the node `v` keeps of the entry it was made from.
pub open spec fn node_face(v: Node) -> Face {
    Face {
        surface: surface_of(v),
        left_id: v.left_id as int,
        right_id: v.right_id as int,
        cost: v.cost,
        feature: feature_of(v),
        skip: v.skip,
    }
}

/// Every node of the row has a surface and a feature.
pub open spec fn solid(row: Seq<Node>) -> bool {
    forall|i: int| 0 <= i < row.len() ==> (#[trigger] row[i]).original is Some && row[i].feature is Some
}

/// What a lattice keeps of each of the entries.
pub open spec fn entry_faces(entries: Seq<EntryView>) -> Seq<Face> {
    Seq::new(entries.len(), |i: int| entry_face(entries[i]))
}

/// What each of the nodes keeps of its entry.
pub open spec fn node_faces(nodes: Seq<Node>) -> Seq<Face> {
    Seq::new(nodes.len(), |i: int| node_face(nodes[i]))
}

/// The bytes of `s` from offset `p` on.
pub open spec fn suffix(s: Seq<u8>, p: int) -> Seq<u8> {
    s.subrange(p, s.len() as int)
}

/// The dictionaries that a text is analysed with.
pub struct Tokenizer<'a> {
    pub sys_dic: MeCabDic<'a>,
    pub user_dic: Option<MeCabDic<'a>>,
    pub char_property: CharProperty<'a>,
    pub unk_dic: MeCabDic<'a>,
    pub matrix: Matrix<'a>,
}

impl<'a> Tokenizer<'a> {
    /// Every dictionary is in order, and the matrix has a cost for the
    /// context of the sentinels.
    pub open spec fn wf(&self) -> bool {
        &&& self.sys_dic.wf()
        &&& (self.user_dic matches Some(d) ==> d.wf())
        &&& self.char_property.wf()
        &&& self.unk_dic.wf()
        &&& self.matrix.wf()
        &&& self.matrix.lsize >= 1
        &&& self.matrix.rsize >= 1
    }

    /// Why the five files make no tokenizer, if they make none: the first
    /// of them, in the order system dictionary, user dictionary, character
    /// table, unknown-word dictionary, matrix, that is not in order; or a
    /// matrix without a cost for the context of the sentinels.
    pub open spec fn open_error(
        sys_dic: Seq<u8>,
        user_dic: Option<Seq<u8>>,
        char_property: Seq<u8>,
        unk_dic: Seq<u8>,
        matrix: Seq<u8>,
    ) -> Option<DicError> {
        if !MeCabDic::layout_ok(sys_dic) {
            Some(DicError::Truncated)
        } else if user_dic matches Some(u) && !MeCabDic::layout_ok(u) {
            Some(DicError::Truncated)
        } else if CharProperty::open_error(char_property) is Some {
            CharProperty::open_error(char_property)
        } else if !MeCabDic::layout_ok(unk_dic) {
            Some(DicError::Truncated)
        } else if !Matrix::layout_ok(matrix) {
            Some(DicError::Truncated)
        } else if crate::bytes::le_u16(matrix, 0) == 0 || crate::bytes::le_u16(matrix, 2) == 0 {
            Some(DicError::ContextId)
        } else {
            None
        }
    }

    /// Opens the five dictionary files of a tokenizer.
    pub fn new(
        sys_dic: &'a [u8],
        user_dic: Option<&'a [u8]>,
        char_property: &'a [u8],
        unk_dic: &'a [u8],
        matrix: &'a [u8],
    ) -> (r: Result<Tokenizer<'a>, DicError>)
        ensures
            match Self::open_error(
                sys_dic@,
                match user_dic {
                    Some(u) => Some(u@),
                    None => None,
                },
                char_property@,
                unk_dic@,
                matrix@,
            ) {
                Some(e) => r matches Err(x) && x == e,
                None => r matches Ok(t) && t.wf() && t.sys_dic.data@ == sys_dic@
                    && t.char_property.data@ == char_property@ && t.unk_dic.data@ == unk_dic@
                    && t.matrix.data@ == matrix@ && (match user_dic {
                    Some(u) => t.user_dic matches Some(d) && d.data@ == u@,
                    None => t.user_dic is None,
                }),
            },
    {
        let sys_dic = match MeCabDic::open(sys_dic) {
            Err(e) => {
                return Err(e);
            },
            Ok(dic) => dic,
        };
        let user_dic: Option<MeCabDic<'a>> = match user_dic {
            Some(data) => match MeCabDic::open(data) {
                Err(e) => {
                    return Err(e);
                },
                Ok(dic) => Some(dic),
            },
            None => None,
        };
        let char_property = match CharProperty::open(char_property) {
            Err(e) => {
                return Err(e);
            },
            Ok(cp) => cp,
        };
        let unk_dic = match MeCabDic::open(unk_dic) {
            Err(e) => {
                return Err(e);
            },
            Ok(dic) => dic,
        };
        let matrix = match Matrix::open(matrix) {
            Err(e) => {
                return Err(e);
            },
            Ok(m) => m,
        };
        if matrix.lsize == 0 || matrix.rsize == 0 {
            return Err(DicError::ContextId);
        }
        Ok(Tokenizer { sys_dic, user_dic, char_property, unk_dic, matrix })
    }

    /// What keeps an entry out of the lattice, if anything: it covers no
    /// byte, or the matrix has no cost for one of its context ids.
    pub open spec fn entry_error(&self, e: EntryView) -> Option<DicError> {
        if e.original.len() == 0 {
            Some(DicError::EmptySurface)
        } else if e.lc_attr >= self.matrix.rsize || e.rc_attr >= self.matrix.lsize {
            Some(DicError::ContextId)
        } else {
            None
        }
    }

    /// What keeps the first of the entries that cannot enter the lattice
    /// out of it, if there is such an entry.
    pub open spec fn check_entries(&self, entries: Seq<EntryView>) -> Option<DicError>
        decreases entries.len(),
    {
        if entries.len() == 0 {
            None
        } else {
            match self.check_entries(entries.drop_last()) {
                Some(e) => Some(e),
                None => self.entry_error(entries.last()),
            }
        }
    }

    /// What the user dictionary holds for the start of `rest`.
    pub open spec fn user_offers(&self, rest: Seq<u8>) -> Result<Seq<EntryView>, DicError> {
        match self.user_dic {
            Some(d) => d.lookup_spec(rest),
            None => Ok(Seq::empty()),
        }
    }

    /// Whether the first character of `rest` always brings unknown words.
    pub open spec fn invoked(&self, rest: Seq<u8>) -> bool {
        info_invoke(self.char_property.word(ucs2_at(rest, 0))) == 1
    }

    /// The entries that enter the lattice for the start of `rest`: those of
    /// the user dictionary, then those of the system dictionary, then the
    /// unknown words where the first character always brings them or no
    /// dictionary has an entry.
    #[verifier::opaque]
    pub open spec fn offers(&self, rest: Seq<u8>) -> Result<Seq<EntryView>, DicError> {
        match self.user_offers(rest) {
            Err(e) => Err(e),
            Ok(user) => match self.check_entries(user) {
                Some(e) => Err(e),
                None => match self.sys_dic.lookup_spec(rest) {
                    Err(e) => Err(e),
                    Ok(sys) => match self.check_entries(sys) {
                        Some(e) => Err(e),
                        None => match self.unk_dic.unknowns_spec(rest, self.char_property) {
                            Err(e) => Err(e),
                            Ok(unk) => {
                                let extra = if self.invoked(rest) || (user.len() == 0 && sys.len()
                                    == 0) {
                                    unk
                                } else {
                                    Seq::empty()
                                };
                                match self.check_entries(extra) {
                                    Some(e) => Err(e),
                                    None => Ok(user + sys + extra),
                                }
                            },
                        },
                    },
                },
            },
        }
    }

    /// An entry offered at byte `p` of `s` ends before byte `q`.
    pub open spec fn lands(&self, s: Seq<u8>, p: int, q: int) -> bool {
        &&& 0 <= p < q <= s.len()
        &&& self.offers(suffix(s, p)) matches Ok(entries) && exists|k: int|
            0 <= k < entries.len() && (#[trigger] entries[k]).original.len() == q - p
    }

    /// Byte `q` of `s` is where a chain of offered entries from the start of
    /// `s` ends.
    pub open spec fn reach(&self, s: Seq<u8>, q: int) -> bool
        decreases q,
    {
        q == 0 || (0 < q <= s.len() && exists|p: int|
            0 <= p < q && self.reach(s, p) && #[trigger] self.lands(s, p, q))
    }

    /// Some entry offered before byte `limit`, at the end of a chain, ends
    /// before byte `q`.
    pub open spec fn via(&self, s: Seq<u8>, limit: int, q: int) -> bool {
        exists|p: int| 0 <= p < limit && self.reach(s, p) && #[trigger] self.lands(s, p, q)
    }

    /// Why the analysis stops at byte `p`, if it does: the dictionaries fail
    /// there, or nothing that they offer up to there reaches further.
    pub open spec fn stop_at(&self, s: Seq<u8>, p: int) -> Option<DicError> {
        if !self.reach(s, p) {
            None
        } else {
            match self.offers(suffix(s, p)) {
                Err(e) => Some(e),
                Ok(_) => if exists|q: int| p < q <= s.len() && #[trigger] self.via(s, p + 1, q) {
                    None
                } else {
                    Some(DicError::NoCandidate)
                },
            }
        }
    }

    /// Why the analysis stops before byte `q`, if it does.
    pub open spec fn failure_before(&self, s: Seq<u8>, q: int) -> Option<DicError>
        decreases q,
    {
        if q <= 0 {
            None
        } else {
            match self.failure_before(s, q - 1) {
                Some(e) => Some(e),
                None => self.stop_at(s, q - 1),
            }
        }
    }

    /// Why `s` has no analysis, if it has none: it is too long, or the
    /// analysis stops at one of its bytes.
    pub open spec fn failure(&self, s: Seq<u8>) -> Option<DicError> {
        if s.len() > MAX_INPUT {
            Some(DicError::InputTooLong)
        } else {
            self.failure_before(s, s.len() as int)
        }
    }

    /// At position `at` of the lattice stand the entries offered for the
    /// byte before it, in their order, if a node ends there, and nothing
    /// otherwise.
    pub open spec fn filled(&self, lattice: Lattice, s: Seq<u8>, at: int) -> bool {
        if lattice.ends()[at].len() > 0 {
            self.offers(suffix(s, at - 1)) matches Ok(entries) && node_faces(lattice.starts()[at])
                == entry_faces(entries) && solid(lattice.starts()[at])
        } else {
            lattice.starts()[at].len() == 0
        }
    }

    /// `lattice` is the lattice of `s`: it holds at every position what the
    /// dictionaries offer there, it lists the nodes that end at a position
    /// in the order they were added, every node is linked to its cheapest
    /// predecessor, and the end sentinel stands behind the last byte.
    pub open spec fn describes(&self, lattice: Lattice, s: Seq<u8>) -> bool {
        &&& lattice.wf()
        &&& lattice.costs_ok(self.matrix)
        &&& lattice.ids_within(self.matrix)
        &&& lattice.spells(s)
        &&& lattice.listed()
        &&& lattice.starts().len() == s.len() + 2
        &&& lattice.cursor() == s.len() + 1
        &&& lattice.starts()[s.len() as int + 1].len() == 1
        &&& lattice.last_node().spec_is_eos()
        &&& lattice.last_node().feature is None
        &&& node_face(lattice.last_node()) == node_face(Node::spec_eos(0))
        &&& lattice.ends().last().len() == 1
        &&& lattice.end_node() == lattice.last_node()
        &&& forall|at: int| 1 <= at <= s.len() ==> #[trigger] self.filled(lattice, s, at)
    }

    /// One of the entries has exactly `len` bytes.
    spec fn hits(added: Seq<EntryView>, len: int) -> bool {
        exists|k: int| 0 <= k < added.len() && (#[trigger] added[k]).original.len() == len
    }

    /// The lattice keeps its structure, its links, its context ids inside
    /// the matrix, and the bytes of `s` under its nodes.
    #[verifier::opaque]
    spec fn sound(&self, lattice: Lattice, s: Seq<u8>) -> bool {
        &&& lattice.wf()
        &&& lattice.costs_ok(self.matrix)
        &&& lattice.ids_within(self.matrix)
        &&& lattice.spells(s)
        &&& lattice.listed()
    }

    /// What the analysis has built when it stands at byte `pos`: a lattice
    /// that is filled up to there, in which a node ends exactly where a
    /// chain of offers ends, and no failure before `pos`.
    #[verifier::opaque]
    spec fn shaped(&self, lattice: Lattice, s: Seq<u8>, pos: int) -> bool {
        &&& s.len() <= MAX_INPUT
        &&& lattice.starts().len() == s.len() + 2
        &&& lattice.ends().len() == s.len() + 3
        &&& 0 <= pos <= s.len()
        &&& lattice.cursor() == pos + 1
        &&& lattice.ends()[s.len() as int + 2].len() == 0
        &&& forall|at: int| 1 <= at <= pos ==> #[trigger] self.filled(lattice, s, at)
        &&& forall|at: int|
            1 <= at <= pos + 1 ==> ((#[trigger] lattice.ends()[at]).len() > 0) == self.reach(
                s,
                at - 1,
            )
        &&& self.reach(s, pos)
        &&& self.failure_before(s, pos) is None
    }

    /// The entries `added` stand at the cursor, and behind the cursor a
    /// node ends exactly where one of them ends or where an earlier offer
    /// ends.
    #[verifier::opaque]
    spec fn staged(
        &self,
        lattice: Lattice,
        s: Seq<u8>,
        pos: int,
        added: Seq<EntryView>,
    ) -> bool {
        &&& node_faces(lattice.starts()[pos + 1]) == entry_faces(added)
        &&& solid(lattice.starts()[pos + 1])
        &&& forall|at: int|
            pos + 1 < at <= s.len() + 1 ==> ((#[trigger] lattice.ends()[at]).len() > 0) == (
            self.via(s, pos, at - 1) || Self::hits(added, at - 1 - pos))
    }

    /// `furthest` is the last position at which a node ends.
    spec fn far(lattice: Lattice, furthest: int) -> bool {
        &&& 1 <= furthest < lattice.ends().len()
        &&& lattice.ends()[furthest].len() > 0
        &&& forall|at: int|
            furthest < at < lattice.ends().len() ==> (#[trigger] lattice.ends()[at]).len() == 0
    }

    /// A failure before some byte is the failure before every later byte.
    proof fn lemma_failure_stays(&self, s: Seq<u8>, q: int, n: int)
        requires
            0 <= q <= n,
            self.failure_before(s, q) is Some,
        ensures
            self.failure_before(s, n) == self.failure_before(s, q),
        decreases n - q,
    {
        if q < n {
            self.lemma_failure_stays(s, q, n - 1);
        }
    }

    /// No byte strictly between `pos` and `q` is reached where no offer up
    /// to `pos` ends between them.
    proof fn lemma_gap(&self, s: Seq<u8>, pos: int, q: int)
        requires
            0 <= pos < q,
            forall|t: int| pos < t <= q ==> !#[trigger] self.via(s, pos + 1, t),
        ensures
            !self.reach(s, q),
        decreases q,
    {
        if self.reach(s, q) {
            let p = choose|p: int| 0 <= p < q && self.reach(s, p) && #[trigger] self.lands(s, p, q);
            if p <= pos {
                assert(self.via(s, pos + 1, q));
            } else {
                self.lemma_gap(s, pos, p);
            }
        }
    }

    /// Links the entries at the cursor, in their order.
    fn add_entries<'b>(
        &self,
        lattice: &mut Lattice<'b>,
        entries: &Vec<DicEntry<'b>>,
        furthest: &mut usize,
        Ghost(s): Ghost<Seq<u8>>,
        Ghost(pos): Ghost<int>,
        Ghost(added): Ghost<Seq<EntryView>>,
    ) -> (r: Result<(), DicError>)
        requires
            self.wf(),
            self.sound(*old(lattice), s),
            self.shaped(*old(lattice), s, pos),
            self.staged(*old(lattice), s, pos, added),
            Self::far(*old(lattice), *old(furthest) as int),
            0 <= pos < s.len(),
            surfaces_start(entries@, suffix(s, pos)),
        ensures
            match self.check_entries(entry_views(entries@)) {
                Some(e) => r matches Err(x) && x == e,
                None => r is Ok && self.sound(*final(lattice), s) && self.shaped(
                    *final(lattice),
                    s,
                    pos,
                ) && self.staged(
                    *final(lattice),
                    s,
                    pos,
                    added + entry_views(entries@),
                ) && Self::far(*final(lattice), *final(furthest) as int),
            },
    {
        let mut k: usize = 0;
        proof {
            assert(entry_views(entries@).take(0) =~= Seq::<EntryView>::empty());
            assert(added + Seq::<EntryView>::empty() =~= added);
        }
        while k < entries.len()
            invariant
                self.wf(),
                0 <= pos < s.len(),
                surfaces_start(entries@, suffix(s, pos)),
                k <= entries@.len(),
                self.check_entries(entry_views(entries@).take(k as int)) is None,
                self.sound(*lattice, s),
                self.shaped(*lattice, s, pos),
                self.staged(*lattice, s, pos, added + entry_views(entries@).take(k as int)),
                Self::far(*lattice, *furthest as int),
            decreases entries@.len() - k,
        {
            let entry: DicEntry<'b> = entries[k];
            let ghost so_far = entry_views(entries@).take(k as int);
            proof {
                assert(entry_views(entries@).take(k as int + 1) =~= so_far.push(entry@));
                assert(so_far.push(entry@).drop_last() =~= so_far);
            }
            if entry.original.len() == 0 {
                proof {
                    self.lemma_check_stays(entry_views(entries@), k as int + 1);
                }
                return Err(DicError::EmptySurface);
            }
            if entry.lc_attr as usize >= self.matrix.rsize || entry.rc_attr as usize
                >= self.matrix.lsize {
                proof {
                    self.lemma_check_stays(entry_views(entries@), k as int + 1);
                }
                return Err(DicError::ContextId);
            }
            let node = Node::new(entry);
            let ghost before = *lattice;
            let ghost reached = *furthest as int;
            proof {
                self.lemma_ready(before, s, pos, entry@);
            }
            lattice.add(node, &self.matrix);
            let end: usize = lattice.position() + entry.original.len();
            if end > *furthest {
                *furthest = end;
            }
            proof {
                assert(self.sound(*lattice, s)) by {
                    reveal(Tokenizer::sound);
                    reveal(Tokenizer::shaped);
                }
                let v = crate::lattice::linked(
                    before.starts(),
                    before.ends(),
                    before.cursor(),
                    node,
                    self.matrix,
                );
                assert(node_face(v) == entry_face(entry@));
                assert(before.cursor() == pos + 1) by {
                    reveal(Tokenizer::shaped);
                }
                self.lemma_added(before, *lattice, s, pos, added + so_far, entry@, v, reached);
                assert((added + so_far).push(entry@) =~= added + so_far.push(entry@));
            }
            k = k + 1;
        }
        proof {
            assert(entry_views(entries@).take(entries@.len() as int) =~= entry_views(entries@));
        }
        Ok(())
    }

    /// A bad entry among the first entries makes the whole list bad in the
    /// same way.
    proof fn lemma_check_stays(&self, entries: Seq<EntryView>, k: int)
        requires
            0 <= k <= entries.len(),
            self.check_entries(entries.take(k)) is Some,
        ensures
            self.check_entries(entries) == self.check_entries(entries.take(k)),
        decreases entries.len() - k,
    {
        if k < entries.len() {
            assert(entries.take(k + 1).drop_last() =~= entries.take(k));
            self.lemma_check_stays(entries, k + 1);
        } else {
            assert(entries.take(k) =~= entries);
        }
    }

    /// What allows an entry to be linked at the cursor.
    proof fn lemma_ready(&self, lattice: Lattice, s: Seq<u8>, pos: int, entry: EntryView)
        requires
            self.wf(),
            self.sound(lattice, s),
            self.shaped(lattice, s, pos),
            pos < s.len(),
            1 <= entry.original.len() <= s.len() - pos,
            entry.original == suffix(s, pos).take(entry.original.len() as int),
            entry.lc_attr < self.matrix.rsize,
        ensures
            lattice.wf(),
            lattice.cursor() == pos + 1,
            lattice.cursor() < lattice.starts().len(),
            lattice.cursor() + entry.original.len() < lattice.ends().len(),
            lattice.cursor() + entry.original.len() - 1 <= s.len(),
            entry.original == s.subrange(
                lattice.cursor() - 1,
                lattice.cursor() + entry.original.len() - 1,
            ),
            forall|k: int|
                0 <= k < lattice.candidates().len() ==> self.matrix.has_cost(
                    (#[trigger] lattice.candidates()[k]).right_id as int,
                    entry.lc_attr as int,
                ),
    {
        reveal(Tokenizer::sound);
        reveal(Tokenizer::shaped);
        lattice.lemma_candidates_in_range(self.matrix, entry.lc_attr as int);
        assert(suffix(s, pos).take(entry.original.len() as int) =~= s.subrange(
            pos,
            pos + entry.original.len(),
        ));
    }

    /// What linking one more entry at the cursor keeps and gives.
    proof fn lemma_added(
        &self,
        before: Lattice,
        after: Lattice,
        s: Seq<u8>,
        pos: int,
        added: Seq<EntryView>,
        entry: EntryView,
        v: Node,
        f: int,
    )
        requires
            Self::far(before, f),
            self.shaped(before, s, pos),
            self.staged(before, s, pos, added),
            pos < s.len(),
            1 <= entry.original.len() <= s.len() - pos,
            after.cursor() == before.cursor(),
            node_face(v) == entry_face(entry),
            v.original is Some,
            v.feature is Some,
            v.epos == pos + 1 + entry.original.len(),
            after.starts() == before.starts().update(pos + 1, before.starts()[pos + 1].push(v)),
            after.ends() == before.ends().update(
                v.epos as int,
                before.ends()[v.epos as int].push(v),
            ),
        ensures
            self.shaped(after, s, pos),
            self.staged(after, s, pos, added.push(entry)),
            Self::far(
                after,
                if pos + 1 + entry.original.len() > f {
                    pos + 1 + entry.original.len()
                } else {
                    f
                },
            ),
    {
        reveal(Tokenizer::shaped);
        reveal(Tokenizer::staged);
        let len = entry.original.len() as int;
        let full = added.push(entry);
        assert forall|at: int| 1 <= at <= pos implies #[trigger] self.filled(after, s, at) by {
            assert(self.filled(before, s, at));
            assert(after.starts()[at] == before.starts()[at]);
            assert(after.ends()[at] == before.ends()[at]);
        }
        assert forall|at: int| 1 <= at <= pos + 1 implies ((#[trigger] after.ends()[at]).len() > 0)
            == self.reach(s, at - 1) by {
            assert(after.ends()[at] == before.ends()[at]);
        }
        assert(solid(after.starts()[pos + 1])) by {
            assert(after.starts()[pos + 1] == before.starts()[pos + 1].push(v));
            assert forall|i: int| 0 <= i < after.starts()[pos + 1].len() implies (
            #[trigger] after.starts()[pos + 1][i]).original is Some && after.starts()[pos
                + 1][i].feature is Some by {
                if i < before.starts()[pos + 1].len() {
                    assert(after.starts()[pos + 1][i] == before.starts()[pos + 1][i]);
                }
            }
        }
        assert(node_faces(after.starts()[pos + 1]) =~= entry_faces(full)) by {
            assert(node_faces(before.starts()[pos + 1]) == entry_faces(added));
            assert(node_faces(before.starts()[pos + 1]).len() == before.starts()[pos + 1].len());
            assert(entry_faces(added).len() == added.len());
            assert(after.starts()[pos + 1] == before.starts()[pos + 1].push(v));
            assert forall|i: int| 0 <= i < full.len() implies node_faces(
                after.starts()[pos + 1],
            )[i] == entry_faces(full)[i] by {
                if i < added.len() {
                    assert(node_faces(before.starts()[pos + 1])[i] == entry_faces(added)[i]);
                }
            }
        }
        assert forall|at: int| pos + 1 < at <= s.len() + 1 implies ((
        #[trigger] after.ends()[at]).len() > 0) == (self.via(s, pos, at - 1) || Self::hits(
            full,
            at - 1 - pos,
        )) by {
            if Self::hits(added, at - 1 - pos) {
                let k = choose|k: int|
                    0 <= k < added.len() && (#[trigger] added[k]).original.len() == at - 1 - pos;
                assert(full[k] == added[k]);
            }
            if at == v.epos {
                assert(full[added.len() as int] == entry);
            } else {
                assert(after.ends()[at] == before.ends()[at]);
                if Self::hits(full, at - 1 - pos) {
                    let k = choose|k: int|
                        0 <= k < full.len() && (#[trigger] full[k]).original.len() == at - 1 - pos;
                    assert(k < added.len());
                    assert(added[k] == full[k]);
                }
            }
        }
        let g = if pos + 1 + len > f {
            pos + 1 + len
        } else {
            f
        };
        assert forall|at: int| g < at < after.ends().len() implies (
        #[trigger] after.ends()[at]).len() == 0 by {
            assert(after.ends()[at] == before.ends()[at]);
        }
        if g != v.epos {
            assert(after.ends()[g] == before.ends()[g]);
        }
    }

    /// How the offers at a position come from what the three dictionaries
    /// hold there.
    proof fn lemma_offers(&self, rest: Seq<u8>)
        ensures
            self.user_offers(rest) matches Err(e) ==> self.offers(rest) == Err::<
                Seq<EntryView>,
                DicError,
            >(e),
            self.user_offers(rest) matches Ok(user) ==> {
                &&& self.check_entries(user) matches Some(e) ==> self.offers(rest) == Err::<
                    Seq<EntryView>,
                    DicError,
                >(e)
                &&& self.check_entries(user) is None ==> {
                    &&& self.sys_dic.lookup_spec(rest) matches Err(e) ==> self.offers(rest)
                        == Err::<Seq<EntryView>, DicError>(e)
                    &&& self.sys_dic.lookup_spec(rest) matches Ok(sys) ==> {
                        &&& self.check_entries(sys) matches Some(e) ==> self.offers(rest)
                            == Err::<Seq<EntryView>, DicError>(e)
                        &&& self.check_entries(sys) is None ==> {
                            &&& self.unk_dic.unknowns_spec(rest, self.char_property) matches Err(
                                e,
                            ) ==> self.offers(rest) == Err::<Seq<EntryView>, DicError>(e)
                            &&& self.unk_dic.unknowns_spec(rest, self.char_property) matches Ok(
                                unk,
                            ) ==> {
                                let extra = if self.invoked(rest) || (user.len() == 0 && sys.len()
                                    == 0) {
                                    unk
                                } else {
                                    Seq::empty()
                                };
                                &&& self.check_entries(extra) matches Some(e) ==> self.offers(rest)
                                    == Err::<Seq<EntryView>, DicError>(e)
                                &&& self.check_entries(extra) is None ==> self.offers(rest) == Ok::<
                                    Seq<EntryView>,
                                    DicError,
                                >(user + sys + extra)
                            }
                        }
                    }
                }
            },
    {
        reveal(Tokenizer::offers);
    }

    /// A fresh lattice is what the analysis has built at byte 0.
    proof fn lemma_started(&self, lattice: Lattice, s: Seq<u8>)
        requires
            self.wf(),
            s.len() <= MAX_INPUT,
            lattice.wf(),
            lattice.cursor() == 1,
            lattice.starts().len() == s.len() + 2,
            lattice.starts()[0] == seq![Node::spec_bos()],
            forall|pos: int| 1 <= pos < s.len() + 2 ==> (#[trigger] lattice.starts()[pos]).len() == 0,
            lattice.ends()[1] == seq![Node::spec_bos()],
            forall|q: int|
                0 <= q < s.len() + 3 && q != 1 ==> (#[trigger] lattice.ends()[q]).len() == 0,
            lattice.listed(),
        ensures
            self.sound(lattice, s),
            self.shaped(lattice, s, 0),
            self.staged(lattice, s, 0, Seq::empty()),
            Self::far(lattice, 1),
    {
        reveal(Tokenizer::sound);
        reveal(Tokenizer::shaped);
        reveal(Tokenizer::staged);
        let st = lattice.starts();
        assert(node_faces(st[1]) =~= entry_faces(Seq::<EntryView>::empty()));
        assert(lattice.ends()[1].len() == 1);
    }

    /// Where the dictionaries fail at a byte that the analysis stands at,
    /// the input has no analysis.
    proof fn lemma_failed(&self, lattice: Lattice, s: Seq<u8>, pos: int, e: DicError)
        requires
            self.shaped(lattice, s, pos),
            pos < s.len(),
            self.offers(suffix(s, pos)) == Err::<Seq<EntryView>, DicError>(e),
        ensures
            self.failure(s) == Some(e),
    {
        reveal(Tokenizer::shaped);
        assert(self.stop_at(s, pos) == Some(e));
        assert(self.failure_before(s, pos + 1) == Some(e));
        self.lemma_failure_stays(s, pos + 1, s.len() as int);
    }

    /// Once all offers at a byte are linked, the lattice is filled there,
    /// and behind it a node ends exactly where an offer up to there ends.
    proof fn lemma_stage_done(
        &self,
        lattice: Lattice,
        s: Seq<u8>,
        pos: int,
        added: Seq<EntryView>,
    )
        requires
            self.shaped(lattice, s, pos),
            self.staged(lattice, s, pos, added),
            pos < s.len(),
            self.offers(suffix(s, pos)) == Ok::<Seq<EntryView>, DicError>(added),
        ensures
            self.filled(lattice, s, pos + 1),
            forall|at: int|
                pos + 1 < at <= s.len() + 1 ==> ((#[trigger] lattice.ends()[at]).len() > 0)
                    == self.via(s, pos + 1, at - 1),
    {
        reveal(Tokenizer::shaped);
        reveal(Tokenizer::staged);
        assert(lattice.ends()[pos + 1].len() > 0);
        assert forall|at: int| pos + 1 < at <= s.len() + 1 implies ((
        #[trigger] lattice.ends()[at]).len() > 0) == self.via(s, pos + 1, at - 1) by {
            let q = at - 1;
            if self.via(s, pos, q) {
                let p = choose|p: int|
                    0 <= p < pos && self.reach(s, p) && #[trigger] self.lands(s, p, q);
                assert(self.via(s, pos + 1, q));
            }
            if Self::hits(added, q - pos) {
                let k = choose|k: int|
                    0 <= k < added.len() && (#[trigger] added[k]).original.len() == q - pos;
                assert(added[k].original.len() == q - pos);
                assert(0 <= pos < q <= s.len());
                assert(self.offers(suffix(s, pos)) matches Ok(entries) && entries == added);
                assert(self.offers(suffix(s, pos)) matches Ok(entries) && exists|k: int|
                    0 <= k < entries.len() && (#[trigger] entries[k]).original.len() == q - pos);
                assert(self.lands(s, pos, q));
                assert(self.via(s, pos + 1, q));
            }
            if self.via(s, pos + 1, q) {
                let p = choose|p: int|
                    0 <= p < pos + 1 && self.reach(s, p) && #[trigger] self.lands(s, p, q);
                if p < pos {
                    assert(self.via(s, pos, q));
                } else {
                    assert(Self::hits(added, q - pos));
                }
            }
        }
    }

    /// Where nothing ends behind a byte whose offers are linked, the input
    /// has no analysis.
    proof fn lemma_no_candidate(&self, lattice: Lattice, s: Seq<u8>, pos: int, furthest: int)
        requires
            self.shaped(lattice, s, pos),
            pos < s.len(),
            self.offers(suffix(s, pos)) is Ok,
            forall|at: int|
                pos + 1 < at <= s.len() + 1 ==> ((#[trigger] lattice.ends()[at]).len() > 0)
                    == self.via(s, pos + 1, at - 1),
            Self::far(lattice, furthest),
            furthest <= pos + 1,
        ensures
            self.failure(s) == Some(DicError::NoCandidate),
    {
        reveal(Tokenizer::shaped);
        assert forall|q: int| pos < q <= s.len() implies !#[trigger] self.via(s, pos + 1, q) by {
            assert(lattice.ends()[q + 1].len() == 0);
        }
        assert(self.stop_at(s, pos) == Some(DicError::NoCandidate));
        assert(self.failure_before(s, pos + 1) == Some(DicError::NoCandidate));
        self.lemma_failure_stays(s, pos + 1, s.len() as int);
    }

    /// The analysis does not stop at bytes that are not reached.
    proof fn lemma_failure_gap(&self, s: Seq<u8>, from: int, to: int)
        requires
            0 <= from <= to,
            self.failure_before(s, from) is None,
            forall|q: int| from <= q < to ==> !#[trigger] self.reach(s, q),
        ensures
            self.failure_before(s, to) is None,
        decreases to - from,
    {
        if from < to {
            self.lemma_failure_gap(s, from, to - 1);
            assert(!self.reach(s, to - 1));
        }
    }

    /// What the analysis has built once the cursor has moved on to the next
    /// position where a node ends.
    proof fn lemma_forwarded(
        &self,
        before: Lattice,
        after: Lattice,
        s: Seq<u8>,
        pos: int,
        advance: int,
    )
        requires
            self.shaped(before, s, pos),
            pos < s.len(),
            self.offers(suffix(s, pos)) is Ok,
            self.filled(before, s, pos + 1),
            forall|at: int|
                pos + 1 < at <= s.len() + 1 ==> ((#[trigger] before.ends()[at]).len() > 0)
                    == self.via(s, pos + 1, at - 1),
            forall|at: int|
                pos + 1 < at < before.starts().len() ==> (#[trigger] before.starts()[at]).len()
                    == 0,
            after.starts() == before.starts(),
            after.ends() == before.ends(),
            advance >= 1,
            after.cursor() == before.cursor() + advance,
            after.cursor() < after.ends().len(),
            after.ends()[after.cursor()].len() > 0,
            forall|q: int|
                before.cursor() < q < after.cursor() ==> (#[trigger] before.ends()[q]).len() == 0,
        ensures
            pos + advance <= s.len(),
            self.shaped(after, s, pos + advance),
            self.staged(after, s, pos + advance, Seq::empty()),
    {
        reveal(Tokenizer::shaped);
        reveal(Tokenizer::staged);
        let next = pos + advance;
        assert(next <= s.len()) by {
            if next > s.len() {
                if next == s.len() + 1 {
                    assert(after.ends()[s.len() as int + 2].len() == 0);
                }
            }
        }
        assert(self.via(s, pos + 1, next)) by {
            assert(before.ends()[next + 1].len() > 0);
        }
        assert forall|q: int| pos < q < next implies !#[trigger] self.reach(s, q) by {
            assert forall|t: int| pos < t <= q implies !#[trigger] self.via(s, pos + 1, t) by {
                assert(before.ends()[t + 1].len() == 0);
            }
            self.lemma_gap(s, pos, q);
        }
        assert(self.reach(s, next)) by {
            let p = choose|p: int|
                0 <= p < pos + 1 && self.reach(s, p) && #[trigger] self.lands(s, p, next);
            assert(self.lands(s, p, next));
        }
        assert(self.stop_at(s, pos) is None);
        assert(self.failure_before(s, pos + 1) is None);
        self.lemma_failure_gap(s, pos + 1, next);
        assert forall|at: int| 1 <= at <= next implies #[trigger] self.filled(after, s, at) by {
            if at <= pos {
                assert(self.filled(before, s, at));
            } else if at == pos + 1 {
            } else {
                assert(before.ends()[at].len() == 0);
                assert(before.starts()[at].len() == 0);
            }
        }
        assert forall|at: int| 1 <= at <= next + 1 implies ((#[trigger] after.ends()[at]).len() > 0)
            == self.reach(s, at - 1) by {
            if pos + 1 < at && at < next + 1 {
                assert(before.ends()[at].len() == 0);
                assert(!self.reach(s, at - 1));
            }
        }
        assert(node_faces(after.starts()[next + 1]) =~= entry_faces(Seq::<EntryView>::empty())) by {
            assert(before.starts()[next + 1].len() == 0);
        }
        assert forall|at: int| next + 1 < at <= s.len() + 1 implies ((
        #[trigger] after.ends()[at]).len() > 0) == (self.via(s, next, at - 1) || Self::hits(
            Seq::empty(),
            at - 1 - next,
        )) by {
            let q = at - 1;
            if self.via(s, next, q) {
                let p = choose|p: int|
                    0 <= p < next && self.reach(s, p) && #[trigger] self.lands(s, p, q);
                assert(p <= pos) by {
                    if p > pos {
                        assert(!self.reach(s, p));
                    }
                }
                assert(self.via(s, pos + 1, q));
            }
            if self.via(s, pos + 1, q) {
                let p = choose|p: int|
                    0 <= p < pos + 1 && self.reach(s, p) && #[trigger] self.lands(s, p, q);
                assert(self.via(s, next, q));
            }
        }
    }

    /// A lattice that is filled up to the last byte and closed by the end
    /// sentinel is the lattice of the input.
    proof fn lemma_finished(&self, before: Lattice, after: Lattice, s: Seq<u8>, eos: Node)
        requires
            self.shaped(before, s, s.len() as int),
            self.staged(before, s, s.len() as int, Seq::empty()),
            self.sound(after, s),
            eos.spec_is_eos(),
            eos.feature is None,
            node_face(eos) == node_face(Node::spec_eos(0)),
            after.cursor() == before.cursor(),
            after.starts() == before.starts().take(s.len() as int + 2).update(
                s.len() as int + 1,
                before.starts()[s.len() as int + 1].push(eos),
            ),
            after.ends() == before.ends().take(s.len() as int + 3).update(
                s.len() as int + 2,
                before.ends()[s.len() as int + 2].push(eos),
            ),
        ensures
            self.describes(after, s),
            self.failure(s) is None,
    {
        reveal(Tokenizer::sound);
        reveal(Tokenizer::shaped);
        reveal(Tokenizer::staged);
        let n = s.len() as int;
        assert(node_faces(before.starts()[n + 1]).len() == before.starts()[n + 1].len());
        assert(before.starts()[n + 1].len() == 0);
        assert(after.starts()[n + 1] =~= seq![eos]);
        assert(after.ends()[n + 2] =~= seq![eos]);
        assert(after.starts().last() == after.starts()[n + 1]);
        assert(after.ends().last() == after.ends()[n + 2]);
        assert forall|at: int| 1 <= at <= n implies #[trigger] self.filled(after, s, at) by {
            assert(self.filled(before, s, at));
            assert(after.starts()[at] == before.starts()[at]);
            assert(after.ends()[at] == before.ends()[at]);
        }
    }

    /// Links at the cursor what the dictionaries offer for the byte `pos`.
    #[verifier::rlimit(40)]
    fn offer_at<'b>(
        &'b self,
        lattice: &mut Lattice<'b>,
        furthest: &mut usize,
        bytes: &'b [u8],
        pos: usize,
    ) -> (r: Result<(), DicError>)
        requires
            self.wf(),
            bytes@.len() <= MAX_INPUT,
            complete_chars(bytes@),
            pos < bytes@.len(),
            self.sound(*old(lattice), bytes@),
            self.shaped(*old(lattice), bytes@, pos as int),
            self.staged(*old(lattice), bytes@, pos as int, Seq::empty()),
            Self::far(*old(lattice), *old(furthest) as int),
        ensures
            match self.offers(suffix(bytes@, pos as int)) {
                Err(e) => r matches Err(x) && x == e,
                Ok(added) => r is Ok && self.sound(*final(lattice), bytes@) && self.shaped(
                    *final(lattice),
                    bytes@,
                    pos as int,
                ) && self.staged(*final(lattice), bytes@, pos as int, added) && Self::far(
                    *final(lattice),
                    *final(furthest) as int,
                ),
            },
    {
        let ghost text = bytes@;
        let rest: &'b [u8] = slice_subrange(bytes, pos, bytes.len());
        let ghost mut added: Seq<EntryView> = Seq::empty();
        let mut matched: bool = false;
        proof {
            self.lemma_offers(rest@);
            lemma_complete_chars_suffix(text, pos as int);
            assert(rest@ == suffix(text, pos as int));
        }
        let ghost user = self.user_offers(rest@);
        match &self.user_dic {
            Some(user_dic) => {
                let user_entries: Vec<DicEntry<'b>> = match user_dic.lookup(rest) {
                    Err(e) => {
                        return Err(e);
                    },
                    Ok(found) => found,
                };
                if user_entries.len() > 0 {
                    match self.add_entries(
                        lattice,
                        &user_entries,
                        furthest,
                        Ghost(text),
                        Ghost(pos as int),
                        Ghost(added),
                    ) {
                        Err(e) => {
                            return Err(e);
                        },
                        Ok(()) => {},
                    }
                    matched = true;
                }
                proof {
                    added = added + entry_views(user_entries@);
                }
            },
            None => {},
        }
        proof {
            assert(user == Ok::<Seq<EntryView>, DicError>(added)) by {
                assert(Seq::<EntryView>::empty() + added =~= added);
            }
            assert(self.check_entries(added) is None);
        }
        let sys_entries: Vec<DicEntry<'b>> = match self.sys_dic.lookup(rest) {
            Err(e) => {
                return Err(e);
            },
            Ok(found) => found,
        };
        if sys_entries.len() > 0 {
            match self.add_entries(
                lattice,
                &sys_entries,
                furthest,
                Ghost(text),
                Ghost(pos as int),
                Ghost(added),
            ) {
                Err(e) => {
                    return Err(e);
                },
                Ok(()) => {},
            }
            matched = true;
        }
        proof {
            added = added + entry_views(sys_entries@);
            assert(self.check_entries(entry_views(sys_entries@)) is None);
        }
        let (unk_entries, invoke) = match self.unk_dic.lookup_unknowns(rest, &self.char_property) {
            Err(e) => {
                return Err(e);
            },
            Ok(found) => found,
        };
        if invoke || !matched {
            match self.add_entries(
                lattice,
                &unk_entries,
                furthest,
                Ghost(text),
                Ghost(pos as int),
                Ghost(added),
            ) {
                Err(e) => {
                    return Err(e);
                },
                Ok(()) => {},
            }
            proof {
                added = added + entry_views(unk_entries@);
            }
        }
        proof {
            assert(added + Seq::<EntryView>::empty() =~= added);
        }
        Ok(())
    }

    /// Builds the lattice of `s`: at every position where a node ends it
    /// links what the dictionaries offer there, and it closes the lattice
    /// with the end sentinel.
    #[verifier::rlimit(30)]
    pub fn build_lattice<'b>(&'b self, s: &'b str) -> (r: Result<Lattice<'b>, DicError>)
        requires
            self.wf(),
        ensures
            match self.failure(encode_utf8(s@)) {
                Some(e) => r matches Err(x) && x == e,
                None => r matches Ok(lattice) && self.describes(lattice, encode_utf8(s@)),
            },
    {
        let bytes: &'b [u8] = s.as_bytes();
        let n: usize = bytes.len();
        if n > MAX_INPUT {
            return Err(DicError::InputTooLong);
        }
        let ghost text = bytes@;
        proof {
            vstd::utf8::encode_utf8_valid_utf8(s@);
            lemma_valid_utf8_complete(text);
        }
        let mut lattice: Lattice<'b> = Lattice::new(n);
        let mut furthest: usize = 1;
        let mut pos: usize = 0;
        proof {
            self.lemma_started(lattice, text);
        }
        while pos < n
            invariant
                self.wf(),
                text == bytes@,
                text == encode_utf8(s@),
                n == text.len(),
                n <= MAX_INPUT,
                complete_chars(text),
                pos <= n,
                self.sound(lattice, text),
                self.shaped(lattice, text, pos as int),
                self.staged(lattice, text, pos as int, Seq::empty()),
                Self::far(lattice, furthest as int),
            decreases n - pos,
        {
            let ghost old_lattice = lattice;
            match self.offer_at(&mut lattice, &mut furthest, bytes, pos) {
                Err(e) => {
                    proof {
                        self.lemma_failed(old_lattice, text, pos as int, e);
                    }
                    return Err(e);
                },
                Ok(()) => {},
            }
            let ghost added = self.offers(suffix(text, pos as int))->Ok_0;
            proof {
                self.lemma_stage_done(lattice, text, pos as int, added);
            }
            let cursor: usize = lattice.position();
            if furthest <= cursor {
                proof {
                    assert(cursor == pos + 1) by {
                        reveal(Tokenizer::shaped);
                    }
                    self.lemma_no_candidate(lattice, text, pos as int, furthest as int);
                }
                return Err(DicError::NoCandidate);
            }
            let ghost before = lattice;
            proof {
                assert(lattice.wf() && cursor == pos + 1 && lattice.starts().len() == n + 2) by {
                    reveal(Tokenizer::sound);
                    reveal(Tokenizer::shaped);
                }
                lattice.lemma_nothing_behind_cursor();
            }
            let advance: usize = lattice.forward();
            proof {
                lattice.lemma_nothing_behind_cursor();
                self.lemma_forwarded(before, lattice, text, pos as int, advance as int);
                assert(self.sound(lattice, text)) by {
                    reveal(Tokenizer::sound);
                }
            }
            pos = pos + advance;
        }
        let ghost before = lattice;
        proof {
            reveal(Tokenizer::sound);
            reveal(Tokenizer::shaped);
            lattice.lemma_candidates_in_range(self.matrix, 0);
        }
        lattice.end(&self.matrix);
        proof {
            let eos = crate::lattice::linked(
                before.starts(),
                before.ends(),
                before.cursor(),
                Node::spec_eos(before.cursor() as usize),
                self.matrix,
            );
            self.lemma_finished(before, lattice, text, eos);
        }
        Ok(lattice)
    }

    /// Where no entry is marked to be bridged over, the surfaces along the
    /// cheapest path of the lattice of `s` are the bytes of `s`.
    pub proof fn lemma_best_path_spells(&self, lattice: Lattice, s: Seq<u8>)
        requires
            self.describes(lattice, s),
            lattice.no_skip(),
        ensures
            surfaces(lattice.best_path()) == s,
    {
        lattice.lemma_best_path_spells(self.matrix, s);
    }

    /// Both lattices are lattices of `s`.
    #[verifier::opaque]
    spec fn twins(&self, one: Lattice, two: Lattice, s: Seq<u8>) -> bool {
        self.describes(one, s) && self.describes(two, s)
    }

    /// What two lattices of one input have in common before their nodes
    /// are compared.
    proof fn lemma_twins(&self, one: Lattice, two: Lattice, s: Seq<u8>)
        requires
            self.twins(one, two, s),
        ensures
            one.tied(self.matrix),
            two.tied(self.matrix),
            one.starts().len() == s.len() + 2,
            two.starts().len() == s.len() + 2,
            one.ends().len() == s.len() + 3,
            two.ends().len() == s.len() + 3,
            forall|at: int| 1 <= at <= s.len() ==> #[trigger] self.filled(one, s, at),
            forall|at: int| 1 <= at <= s.len() ==> #[trigger] self.filled(two, s, at),
            one.starts()[s.len() as int + 1].len() == 1,
            two.starts()[s.len() as int + 1].len() == 1,
            one.starts()[s.len() as int + 1][0].original is None,
            two.starts()[s.len() as int + 1][0].original is None,
            one.starts()[s.len() as int + 1][0].feature is None,
            two.starts()[s.len() as int + 1][0].feature is None,
            node_face(one.starts()[s.len() as int + 1][0]) == node_face(two.starts()[s.len() as int + 1][0]),
    {
        reveal(Tokenizer::twins);
        reveal(Lattice::tied);
        assert(one.starts().last() == one.starts()[s.len() as int + 1]);
        assert(two.starts().last() == two.starts()[s.len() as int + 1]);
    }

    /// The nodes at a position of two lattices of one input that agree on
    /// the nodes ending there and earlier are the same.
    proof fn lemma_same_row(&self, one: Lattice, two: Lattice, s: Seq<u8>, at: int)
        requires
            self.twins(one, two, s),
            1 <= at <= s.len() + 1,
            forall|q: int| 0 <= q <= at ==> #[trigger] one.ends()[q] == two.ends()[q],
        ensures
            one.starts()[at] == two.starts()[at],
    {
        self.lemma_twins(one, two, s);
        let r1 = one.starts()[at];
        let r2 = two.starts()[at];
        assert(one.ends()[at] == two.ends()[at]);
        if at <= s.len() {
            assert(self.filled(one, s, at) && self.filled(two, s, at));
        }
        assert(node_faces(r1).len() == r1.len());
        assert(node_faces(r2).len() == r2.len());
        assert(r1.len() == r2.len());
        assert forall|i: int| 0 <= i < r1.len() implies #[trigger] r1[i] == r2[i] by {
            assert(node_faces(r1)[i] == node_face(r1[i]));
            assert(node_faces(r2)[i] == node_face(r2[i]));
            assert(node_face(r1[i]) == node_face(r2[i]));
            if at <= s.len() {
                let o1 = r1[i].original->Some_0;
                let o2 = r2[i].original->Some_0;
                assert(o1@ == o2@);
                assert(o1 =~= o2);
                let f1 = r1[i].feature->Some_0;
                let f2 = r2[i].feature->Some_0;
                assert(f1@ == f2@);
                assert(f1 =~= f2);
            }
            Lattice::lemma_same_node(one, two, self.matrix, at, i);
        }
        assert(r1 =~= r2);
    }

    /// Two lattices of one input agree on the begin sentinel and on what
    /// ends before and with it.
    proof fn lemma_same_first(&self, one: Lattice, two: Lattice, s: Seq<u8>)
        requires
            self.twins(one, two, s),
        ensures
            one.starts()[0] == two.starts()[0],
            one.ends()[0] == two.ends()[0],
            one.ends()[1] == two.ends()[1],
    {
        self.lemma_twins(one, two, s);
        Lattice::lemma_same_bos(one, two, self.matrix);
        Lattice::lemma_same_ends_at(one, two, self.matrix, 0);
        Lattice::lemma_same_ends_at(one, two, self.matrix, 1);
    }

    /// Two lattices of one input that agree before a position agree at it.
    proof fn lemma_same_next(&self, one: Lattice, two: Lattice, s: Seq<u8>, at: int)
        requires
            self.twins(one, two, s),
            1 <= at <= s.len() + 1,
            forall|pos: int| 0 <= pos < at ==> #[trigger] one.starts()[pos] == two.starts()[pos],
            forall|q: int| 0 <= q <= at ==> #[trigger] one.ends()[q] == two.ends()[q],
        ensures
            one.starts()[at] == two.starts()[at],
            one.ends()[at + 1] == two.ends()[at + 1],
    {
        self.lemma_twins(one, two, s);
        self.lemma_same_row(one, two, s, at);
        assert forall|pos: int| 0 <= pos < at + 1 && pos < one.starts().len() implies #[trigger]
            two.starts()[pos] == one.starts()[pos] by {
            assert(one.starts()[pos] == two.starts()[pos]);
        }
        Lattice::lemma_same_ends_at(one, two, self.matrix, at + 1);
    }

    /// Two lattices of one input agree up to a position: on the nodes that
    /// start there or earlier, and on those that end right behind it or
    /// earlier.
    proof fn lemma_same_upto(&self, one: Lattice, two: Lattice, s: Seq<u8>, at: int)
        requires
            self.twins(one, two, s),
            0 <= at <= s.len() + 1,
        ensures
            forall|pos: int| 0 <= pos <= at ==> #[trigger] one.starts()[pos] == two.starts()[pos],
            forall|q: int| 0 <= q <= at + 1 ==> #[trigger] one.ends()[q] == two.ends()[q],
        decreases at,
    {
        if at == 0 {
            self.lemma_same_first(one, two, s);
        } else {
            self.lemma_same_upto(one, two, s, at - 1);
            self.lemma_same_next(one, two, s, at);
        }
    }

    /// An input has one lattice: any two lattices of it hold the same nodes
    /// in the same order.
    pub proof fn lemma_one_lattice(&self, one: Lattice, two: Lattice, s: Seq<u8>)
        requires
            self.describes(one, s),
            self.describes(two, s),
        ensures
            one.starts() == two.starts(),
            one.ends() == two.ends(),
            one.best_path() == two.best_path(),
    {
        assert(self.twins(one, two, s)) by {
            reveal(Tokenizer::twins);
        }
        self.lemma_twins(one, two, s);
        self.lemma_same_upto(one, two, s, s.len() as int + 1);
        assert(one.starts() =~= two.starts());
        assert(one.ends() =~= two.ends());
    }

    /// Where no entry is marked to be bridged over, the surfaces of the
    /// morphemes on the cheapest path through the lattice of a text, one
    /// after the other, are the text.
    pub proof fn lemma_tokens_spell(&self, lattice: Lattice, s: Seq<char>)
        requires
            self.describes(lattice, encode_utf8(s)),
            lattice.no_skip(),
            path_texts(lattice.best_path()) is Ok,
        ensures
            joined(path_texts(lattice.best_path())->Ok_0) == s,
    {
        let path = lattice.best_path();
        let bytes = encode_utf8(s);
        self.lemma_best_path_spells(lattice, bytes);
        lattice.lemma_best_path_is_path(self.matrix);
        lemma_surfaces_inner(path);
        lemma_texts_join(path.subrange(1, path.len() - 1));
        vstd::utf8::encode_utf8_decode_utf8(s);
    }

    /// Analyses `s`.  Returns surface and feature of each morpheme on the
    /// cheapest path through the lattice of `s`.
    pub fn tokenize(&self, s: &str) -> (r: Result<Vec<(String, String)>, DicError>)
        requires
            self.wf(),
        ensures
            match self.failure(encode_utf8(s@)) {
                Some(e) => r matches Err(x) && x == e,
                None => exists|lattice: Lattice|
                    #[trigger] self.describes(lattice, encode_utf8(s@)) && (match path_texts(
                        lattice.best_path(),
                    ) {
                        Err(e) => r matches Err(x) && x == e,
                        Ok(texts) => r matches Ok(tokens) && token_views(tokens@) == texts,
                    }),
            },
    {
        let lattice = match self.build_lattice(s) {
            Err(e) => {
                return Err(e);
            },
            Ok(lattice) => lattice,
        };
        let nodes: Vec<Node> = lattice.backward();
        let r = path_tokens(&nodes);
        proof {
            assert(self.describes(lattice, encode_utf8(s@)));
        }
        r
    }

    /// The surfaces along each of the ranked paths of an input are the bytes
    /// of the input, white space included.
    pub proof fn lemma_ranked_paths_spell(
        &self,
        lattice: Lattice,
        s: Seq<u8>,
        paths: Seq<Seq<Node>>,
        n: int,
        i: int,
    )
        requires
            self.ranks(lattice, s, paths, n),
            0 <= i < paths.len(),
        ensures
            surfaces(paths[i]) == s,
    {
        let st = lattice.starts();
        assert(st.last() == st[st.len() - 1]);
        assert(crate::lattice::node_ok(st, lattice.ends(), st[st.len() - 1][0], st.len() - 1, 0));
        lattice.lemma_every_path_spells(s, paths[i]);
    }

    /// The results for fewer ways are the first of the results for more
    /// ways.
    pub proof fn lemma_n_best_prefix(
        &self,
        one: Lattice,
        two: Lattice,
        s: Seq<u8>,
        fewer: int,
        more: int,
    )
        requires
            self.describes(one, s),
            self.describes(two, s),
            fewer <= more,
            all_texts(two.ranked_paths(self.matrix, more)) is Ok,
        ensures
            one.ranked_paths(self.matrix, fewer).len() <= two.ranked_paths(self.matrix, more).len(),
            all_texts(one.ranked_paths(self.matrix, fewer)) == Ok::<
                Seq<Seq<(Seq<char>, Seq<char>)>>,
                DicError,
            >(
                all_texts(two.ranked_paths(self.matrix, more))->Ok_0.take(
                    one.ranked_paths(self.matrix, fewer).len() as int,
                ),
            ),
    {
        self.lemma_one_lattice(one, two, s);
        assert(one.end_node() == two.end_node());
        assert(one.ranked_paths(self.matrix, fewer) == two.ranked_paths(self.matrix, fewer));
        two.lemma_ranked_paths_prefix(self.matrix, fewer, more);
        lemma_all_texts_prefix(
            two.ranked_paths(self.matrix, more),
            two.ranked_paths(self.matrix, fewer).len() as int,
        );
    }

    /// Analyses `s` in up to `n` ways.  Returns for each path found,
    /// cheapest first, surface and feature of each of its morphemes.
    pub fn tokenize_n_best(&self, s: &str, n: u32) -> (r: Result<
        Vec<Vec<(String, String)>>,
        DicError,
    >)
        requires
            self.wf(),
        ensures
            match self.failure(encode_utf8(s@)) {
                Some(e) => r matches Err(x) && x == e,
                None => exists|lattice: Lattice, paths: Seq<Seq<Node>>|
                    {
                        &&& #[trigger] self.ranks(lattice, encode_utf8(s@), paths, n as int)
                        &&& paths.len() <= n
                        &&& match all_texts(paths) {
                            Err(e) => r matches Err(x) && x == e,
                            Ok(texts) => r matches Ok(found) && token_lists(found@) == texts,
                        }
                    },
            },
    {
        let lattice = match self.build_lattice(s) {
            Err(e) => {
                return Err(e);
            },
            Ok(lattice) => lattice,
        };
        let nodes_vec: Vec<Vec<Node>> = lattice.backward_astar(n, &self.matrix);
        proof {
            let views = path_views(nodes_vec@);
            assert forall|path: Seq<Node>| #[trigger] is_lattice_path(lattice.ends(), path) implies
                views.contains(path) || (views.len() == n && (lattice.no_skip() ==> forall|i: int|
                    0 <= i < views.len() ==> path_cost(#[trigger] views[i], self.matrix)
                        <= path_cost(path, self.matrix))) by {
                if found_in(nodes_vec@, path) {
                    let i = choose|i: int|
                        0 <= i < nodes_vec@.len() && (#[trigger] nodes_vec@[i])@ == path;
                    assert(views[i] == path);
                } else if lattice.no_skip() {
                    assert(costs_at_least(nodes_vec@, path, self.matrix));
                    assert forall|i: int| 0 <= i < views.len() implies path_cost(
                        #[trigger] views[i],
                        self.matrix,
                    ) <= path_cost(path, self.matrix) by {
                        assert(views[i] == nodes_vec@[i]@);
                    }
                }
            }
            assert(self.ranks(lattice, encode_utf8(s@), views, n as int));
        }
        all_tokens(&nodes_vec)
    }

    /// `paths` are the paths that the search lists in the lattice of `s`
    /// when `n` are asked for.  They are different paths from sentinel to
    /// sentinel, and every such path is among them unless they are `n`;
    /// where no entry
    /// is marked to be bridged over, they come in the order of their costs,
    /// the first costs as little as a path can, and no path left out costs
    /// less than one of them.
    pub open spec fn ranks(
        &self,
        lattice: Lattice,
        s: Seq<u8>,
        paths: Seq<Seq<Node>>,
        n: int,
    ) -> bool {
        &&& self.describes(lattice, s)
        &&& paths == lattice.ranked_paths(self.matrix, n)
        &&& forall|i: int|
            0 <= i < paths.len() ==> is_lattice_path(lattice.ends(), #[trigger] paths[i])
        &&& forall|path: Seq<Node>|
            #[trigger] is_lattice_path(lattice.ends(), path) ==> paths.contains(path) || (
            paths.len() == n && (lattice.no_skip() ==> forall|i: int|
                0 <= i < paths.len() ==> path_cost(#[trigger] paths[i], self.matrix) <= path_cost(
                    path,
                    self.matrix,
                )))
        &&& forall|i: int, j: int| 0 <= i < j < paths.len() ==> #[trigger] paths[i] != #[trigger] paths[j]
        &&& lattice.no_skip() ==> {
            &&& forall|i: int, j: int|
                0 <= i <= j < paths.len() ==> path_cost(#[trigger] paths[i], self.matrix)
                    <= path_cost(#[trigger] paths[j], self.matrix)
            &&& paths.len() > 0 ==> path_cost(paths[0], self.matrix)
                == lattice.end_node().min_cost
        }
    }
}

/// Surface and feature of a node as texts, where both are valid UTF-8.
pub open spec fn node_text(v: Node) -> Result<(Seq<char>, Seq<char>), DicError> {
    if !valid_utf8(surface_of(v)) || !valid_utf8(feature_of(v)) {
        Err(DicError::NotUtf8)
    } else {
        Ok((decode_utf8(surface_of(v)), decode_utf8(feature_of(v))))
    }
}

/// Surface and feature of each of the nodes as texts.
pub open spec fn texts(nodes: Seq<Node>) -> Result<Seq<(Seq<char>, Seq<char>)>, DicError>
    decreases nodes.len(),
{
    if nodes.len() == 0 {
        Ok(Seq::empty())
    } else {
        match texts(nodes.drop_last()) {
            Err(e) => Err(e),
            Ok(before) => match node_text(nodes.last()) {
                Err(e) => Err(e),
                Ok(last) => Ok(before.push(last)),
            },
        }
    }
}

/// Surface and feature of each node of `path` between its two sentinels.
pub open spec fn path_texts(path: Seq<Node>) -> Result<Seq<(Seq<char>, Seq<char>)>, DicError> {
    texts(path.subrange(1, path.len() - 1))
}

/// The texts of each of the paths.
pub open spec fn all_texts(paths: Seq<Seq<Node>>) -> Result<
    Seq<Seq<(Seq<char>, Seq<char>)>>,
    DicError,
>
    decreases paths.len(),
{
    if paths.len() == 0 {
        Ok(Seq::empty())
    } else {
        match all_texts(paths.drop_last()) {
            Err(e) => Err(e),
            Ok(before) => match path_texts(paths.last()) {
                Err(e) => Err(e),
                Ok(last) => Ok(before.push(last)),
            },
        }
    }
}

/// The surfaces of the tokens, one after the other.
pub open spec fn joined(tokens: Seq<(Seq<char>, Seq<char>)>) -> Seq<char>
    decreases tokens.len(),
{
    if tokens.len() == 0 {
        Seq::empty()
    } else {
        joined(tokens.drop_last()) + tokens.last().0
    }
}

/// Two valid UTF-8 byte strings, one after the other, encode the text of
/// the first followed by the text of the second.
proof fn lemma_decode_concat(a: Seq<u8>, b: Seq<u8>)
    requires
        valid_utf8(a),
        valid_utf8(b),
    ensures
        valid_utf8(a + b),
        decode_utf8(a + b) == decode_utf8(a) + decode_utf8(b),
    decreases a.len(),
{
    vstd::utf8::valid_utf8_concat(a, b);
    if a.len() == 0 {
        assert(a + b =~= b);
        assert(decode_utf8(a) + decode_utf8(b) =~= decode_utf8(b));
    } else {
        let rest = vstd::utf8::pop_first_scalar(a);
        assert(vstd::utf8::valid_first_scalar(a));
        assert(vstd::utf8::pop_first_scalar(a + b) =~= rest + b);
        lemma_decode_concat(rest, b);
        assert(decode_utf8(a + b) =~= decode_utf8(a) + decode_utf8(b));
    }
}

/// The surfaces of the nodes whose texts can be had are valid UTF-8, and
/// the texts of the surfaces, one after the other, are the text that the
/// surfaces encode together.
proof fn lemma_texts_join(nodes: Seq<Node>)
    requires
        texts(nodes) is Ok,
    ensures
        valid_utf8(surfaces(nodes)),
        joined(texts(nodes)->Ok_0) == decode_utf8(surfaces(nodes)),
    decreases nodes.len(),
{
    if nodes.len() > 0 {
        let head = nodes.drop_last();
        let last = nodes.last();
        lemma_texts_join(head);
        lemma_decode_concat(surfaces(head), surface_of(last));
        let before = texts(head)->Ok_0;
        let text = node_text(last)->Ok_0;
        assert(texts(nodes)->Ok_0 == before.push(text));
        assert(before.push(text).drop_last() =~= before);
    } else {
        assert(decode_utf8(Seq::<u8>::empty()) =~= Seq::<char>::empty());
    }
}

/// Putting a node in front of others puts its surface in front of theirs.
proof fn lemma_surfaces_front(v: Node, q: Seq<Node>)
    ensures
        surfaces(seq![v] + q) == surface_of(v) + surfaces(q),
    decreases q.len(),
{
    let full = seq![v] + q;
    if q.len() == 0 {
        assert(full.drop_last() =~= Seq::<Node>::empty());
        assert(full.last() == v);
        assert(surfaces(Seq::<Node>::empty()) =~= Seq::<u8>::empty());
        assert(surfaces(q) =~= Seq::<u8>::empty());
        assert(surfaces(full) =~= surfaces(full.drop_last()) + surface_of(v));
        assert(surfaces(full) =~= surface_of(v) + surfaces(q));
    } else {
        lemma_surfaces_front(v, q.drop_last());
        assert(full.drop_last() =~= seq![v] + q.drop_last());
        assert(full.last() == q.last());
        assert(surfaces(full) =~= surface_of(v) + surfaces(q));
    }
}

/// The sentinels at the two ends of a path add nothing to its surfaces.
proof fn lemma_surfaces_inner(path: Seq<Node>)
    requires
        path.len() >= 2,
        path[0].original is None,
        path.last().original is None,
    ensures
        surfaces(path.subrange(1, path.len() - 1)) == surfaces(path),
{
    let inner = path.subrange(1, path.len() - 1);
    let head = path.drop_last();
    assert(head =~= seq![path[0]] + inner);
    lemma_surfaces_front(path[0], inner);
    assert(surfaces(path) =~= surfaces(head) + surface_of(path.last()));
    assert(surfaces(head) =~= surfaces(inner));
}

/// What the pairs of strings hold.
pub open spec fn token_views(tokens: Seq<(String, String)>) -> Seq<(Seq<char>, Seq<char>)> {
    Seq::new(tokens.len(), |i: int| (tokens[i].0@, tokens[i].1@))
}

/// A node whose text cannot be had keeps the texts of a longer list from
/// being had.
proof fn lemma_texts_stay(nodes: Seq<Node>, k: int)
    requires
        0 <= k <= nodes.len(),
        texts(nodes.take(k)) is Err,
    ensures
        texts(nodes) == texts(nodes.take(k)),
    decreases nodes.len() - k,
{
    if k < nodes.len() {
        assert(nodes.take(k + 1).drop_last() =~= nodes.take(k));
        lemma_texts_stay(nodes, k + 1);
    } else {
        assert(nodes.take(k) =~= nodes);
    }
}

/// The texts of the first of the paths are the first of the texts of all
/// of them.
proof fn lemma_all_texts_prefix(paths: Seq<Seq<Node>>, k: int)
    requires
        0 <= k <= paths.len(),
        all_texts(paths) is Ok,
    ensures
        all_texts(paths.take(k)) == Ok::<Seq<Seq<(Seq<char>, Seq<char>)>>, DicError>(
            all_texts(paths)->Ok_0.take(k),
        ),
    decreases paths.len(),
{
    let all = all_texts(paths)->Ok_0;
    if k == paths.len() {
        assert(paths.take(k) =~= paths);
        lemma_all_texts_len(paths);
        assert(all.take(k) =~= all);
    } else {
        let head = paths.drop_last();
        lemma_all_texts_prefix(head, k);
        lemma_all_texts_len(head);
        assert(head.take(k) =~= paths.take(k));
        assert(all_texts(head)->Ok_0.take(k) =~= all.take(k));
    }
}

/// There are as many lists of texts as paths.
proof fn lemma_all_texts_len(paths: Seq<Seq<Node>>)
    requires
        all_texts(paths) is Ok,
    ensures
        all_texts(paths)->Ok_0.len() == paths.len(),
    decreases paths.len(),
{
    if paths.len() > 0 {
        lemma_all_texts_len(paths.drop_last());
    }
}

/// A path whose texts cannot be had keeps the texts of a longer list of
/// paths from being had.
proof fn lemma_all_texts_stay(paths: Seq<Seq<Node>>, k: int)
    requires
        0 <= k <= paths.len(),
        all_texts(paths.take(k)) is Err,
    ensures
        all_texts(paths) == all_texts(paths.take(k)),
    decreases paths.len() - k,
{
    if k < paths.len() {
        assert(paths.take(k + 1).drop_last() =~= paths.take(k));
        lemma_all_texts_stay(paths, k + 1);
    } else {
        assert(paths.take(k) =~= paths);
    }
}

/// What each list of pairs of strings holds.
pub open spec fn token_lists(lists: Seq<Vec<(String, String)>>) -> Seq<
    Seq<(Seq<char>, Seq<char>)>,
> {
    Seq::new(lists.len(), |i: int| token_views(lists[i]@))
}

/// Reads the texts of each of the paths.
pub fn all_tokens(paths: &Vec<Vec<Node>>) -> (r: Result<Vec<Vec<(String, String)>>, DicError>)
    requires
        forall|i: int| 0 <= i < paths@.len() ==> (#[trigger] paths@[i])@.len() >= 2,
    ensures
        match all_texts(path_views(paths@)) {
            Err(e) => r matches Err(x) && x == e,
            Ok(texts) => r matches Ok(found) && token_lists(found@) == texts,
        },
{
    let ghost views = path_views(paths@);
    let mut entries_vec: Vec<Vec<(String, String)>> = Vec::new();
    let mut i: usize = 0;
    proof {
        assert(views.take(0) =~= Seq::<Seq<Node>>::empty());
        assert(token_lists(entries_vec@) =~= Seq::empty());
    }
    while i < paths.len()
        invariant
            i <= paths@.len(),
            views == path_views(paths@),
            forall|k: int| 0 <= k < paths@.len() ==> (#[trigger] paths@[k])@.len() >= 2,
            all_texts(views.take(i as int)) == Ok::<Seq<Seq<(Seq<char>, Seq<char>)>>, DicError>(
                token_lists(entries_vec@),
            ),
        decreases paths@.len() - i,
    {
        proof {
            assert(views.take(i as int + 1).drop_last() =~= views.take(i as int));
            assert(views.take(i as int + 1).last() == paths@[i as int]@);
        }
        match path_tokens(&paths[i]) {
            Err(e) => {
                proof {
                    lemma_all_texts_stay(views, i as int + 1);
                }
                return Err(e);
            },
            Ok(entries) => {
                let ghost before = entries_vec@;
                entries_vec.push(entries);
                proof {
                    assert(token_lists(entries_vec@) =~= token_lists(before).push(
                        token_views(entries@),
                    ));
                }
            },
        }
        i = i + 1;
    }
    proof {
        assert(views.take(views.len() as int) =~= views);
    }
    Ok(entries_vec)
}

/// Reads surface and feature of each node of `nodes` between the first and
/// the last as texts.
pub fn path_tokens(nodes: &Vec<Node>) -> (r: Result<Vec<(String, String)>, DicError>)
    requires
        nodes@.len() >= 2,
    ensures
        match path_texts(nodes@) {
            Err(e) => r matches Err(x) && x == e,
            Ok(texts) => r matches Ok(tokens) && token_views(tokens@) == texts,
        },
{
    let mut entries: Vec<(String, String)> = Vec::new();
    let ghost inner = nodes@.subrange(1, nodes@.len() - 1);
    let mut i: usize = 1;
    proof {
        assert(inner.take(0) =~= Seq::<Node>::empty());
        assert(token_views(entries@) =~= Seq::empty());
    }
    while i < nodes.len() - 1
        invariant
            nodes@.len() >= 2,
            inner == nodes@.subrange(1, nodes@.len() - 1),
            1 <= i <= nodes@.len() - 1,
            texts(inner.take(i - 1)) == Ok::<Seq<(Seq<char>, Seq<char>)>, DicError>(
                token_views(entries@),
            ),
        decreases nodes@.len() - i,
    {
        proof {
            assert(inner.take(i as int).drop_last() =~= inner.take(i - 1));
            assert(inner.take(i as int).last() == nodes@[i as int]);
        }
        let original: String = match nodes[i].original_to_string() {
            None => {
                proof {
                    lemma_texts_stay(inner, i as int);
                }
                return Err(DicError::NotUtf8);
            },
            Some(text) => text,
        };
        let feature: String = match nodes[i].feature_to_string() {
            None => {
                proof {
                    lemma_texts_stay(inner, i as int);
                }
                return Err(DicError::NotUtf8);
            },
            Some(text) => text,
        };
        let ghost before = entries@;
        entries.push((original, feature));
        proof {
            assert(token_views(entries@) =~= token_views(before).push((original@, feature@)));
        }
        i = i + 1;
    }
    proof {
        assert(inner.take(inner.len() as int) =~= inner);
    }
    Ok(entries)
}

} // verus!
