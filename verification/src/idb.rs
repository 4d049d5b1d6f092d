//! The inverted search index: file-id to path, and trigram to posting set.

use vstd::prelude::*;
use vstd::pervasive::VecAdditionalExecFns;

use crate::search::{contains_substr, is_match_at};
use crate::tokenizer::{has_trigram, tokenize, trigram_at};

verus! {

/// Some element of `v` reads as the string `t`.
pub open spec fn strs_contain(v: Seq<String>, t: Seq<char>) -> bool {
    exists|k: int| 0 <= k < v.len() && v[k]@ == t
}

/// Whether some element of `v` equals `s` as a string.
fn vec_contains_string(v: &Vec<String>, s: &String) -> (r: bool)
    ensures
        r == strs_contain(v@, s@),
{
    let mut k: usize = 0;
    while k < v.len()
        invariant
            k <= v@.len(),
            forall|m: int| 0 <= m < k ==> v@[m]@ != s@,
        decreases v@.len() - k,
    {
        if v[k] == *s {
            return true;
        }
        k = k + 1;
    }
    false
}

/// Whether `v` holds the id `x`.
pub(crate) fn vec_contains_u32(v: &Vec<u32>, x: u32) -> (r: bool)
    ensures
        r == v@.contains(x),
{
    let mut k: usize = 0;
    while k < v.len()
        invariant
            k <= v@.len(),
            forall|m: int| 0 <= m < k ==> v@[m] != x,
        decreases v@.len() - k,
    {
        if v[k] == x {
            return true;
        }
        k = k + 1;
    }
    false
}

/// The deduplicated trigram set of a file's content, as the indexing
/// pipeline computes it.
///
/// A file is tokenizable only when it has at least 4 code points;
/// shorter contents yield no trigrams for indexing.
pub fn trigram_set(content: &str) -> (r: Vec<String>)
    ensures
        forall|a: int, b: int| 0 <= a < b < r@.len() ==> r@[a]@ != r@[b]@,
        content@.len() < 4 ==> r@.len() == 0,
        content@.len() >= 4 ==> (forall|t: Seq<char>|
            #[trigger] strs_contain(r@, t) <==> has_trigram(content@, t)),
{
    let mut r: Vec<String> = Vec::new();
    let n = content.unicode_len();
    if n < 4 {
        return r;
    }
    let toks = tokenize(content);
    let mut k: usize = 0;
    while k < toks.len()
        invariant
            n == content@.len(),
            n >= 4,
            toks@.len() == n - 2,
            forall|i: int| 0 <= i < toks@.len() ==> toks@[i]@ == trigram_at(content@, i),
            k <= toks@.len(),
            forall|a: int, b: int| 0 <= a < b < r@.len() ==> r@[a]@ != r@[b]@,
            forall|t: Seq<char>|
                #[trigger] strs_contain(r@, t) <==> (exists|i: int|
                    0 <= i < k && toks@[i]@ == t),
        decreases toks@.len() - k,
    {
        let ghost r0 = r@;
        if !vec_contains_string(&r, &toks[k]) {
            r.push(toks[k].clone());
        }
        proof {
            assert forall|t: Seq<char>| #[trigger]
                strs_contain(r@, t) <==> (exists|i: int| 0 <= i < k + 1 && toks@[i]@ == t) by {
                if strs_contain(r@, t) {
                    let m = choose|m: int| 0 <= m < r@.len() && r@[m]@ == t;
                    if m < r0.len() {
                        assert(strs_contain(r0, t));
                    } else {
                        assert(toks@[k as int]@ == t);
                    }
                }
                if exists|i: int| 0 <= i < k + 1 && toks@[i]@ == t {
                    let i = choose|i: int| 0 <= i < k + 1 && toks@[i]@ == t;
                    if i < k {
                        assert(strs_contain(r0, t));
                        let m = choose|m: int| 0 <= m < r0.len() && r0[m]@ == t;
                        assert(r@[m]@ == t);
                    } else {
                        if strs_contain(r0, t) {
                            let m = choose|m: int| 0 <= m < r0.len() && r0[m]@ == t;
                            assert(r@[m]@ == t);
                        } else {
                            assert(r@[r@.len() - 1]@ == t);
                        }
                    }
                }
            }
        }
        k = k + 1;
    }
    proof {
        assert forall|t: Seq<char>| #[trigger]
            strs_contain(r@, t) <==> has_trigram(content@, t) by {
            if strs_contain(r@, t) {
                let i = choose|i: int| 0 <= i < toks@.len() && toks@[i]@ == t;
                assert(trigram_at(content@, i) == t && i + 3 <= content@.len());
            }
            if has_trigram(content@, t) {
                let i = choose|i: int| 0 <= i && i + 3 <= content@.len() && trigram_at(
                    content@,
                    i,
                ) == t;
                assert(toks@[i]@ == t);
            }
        }
    }
    r
}

/// One entry of the inverted index: a trigram and the ids of the files
/// whose content contains it.
pub struct Posting {
    pub key: String,
    pub ids: Vec<u32>,
}

/// The posting set for trigram `t` in the posting table `db` contains
/// file id `id`.
pub open spec fn db_posting_has(db: Seq<Posting>, t: Seq<char>, id: u32) -> bool {
    exists|j: int| 0 <= j < db.len() && db[j].key@ == t && db[j].ids@.contains(id)
}

/// The search index database.
///
/// File ids are dense: the path of file `i` is `idx_db[i]`, and `cur_id`
/// is both the next id to assign and the number of indexed files.
pub struct Idb {
    pub cur_id: u32,
    pub project_root: String,
    pub idx_db: Vec<String>,
    pub str_db: Vec<Posting>,
}

impl Idb {
    /// Structural invariant: `cur_id` counts the indexed files, trigram
    /// keys are unique, and every posting is a duplicate-free set of
    /// ids of indexed files.
    pub open spec fn wf(self) -> bool {
        &&& self.cur_id == self.idx_db@.len()
        &&& forall|j: int, k: int|
            0 <= j < k < self.str_db@.len() ==> self.str_db@[j].key@ != self.str_db@[k].key@
        &&& forall|j: int| 0 <= j < self.str_db@.len() ==> self.str_db@[j].ids@.no_duplicates()
        &&& forall|j: int, m: int|
            0 <= j < self.str_db@.len() && 0 <= m < self.str_db@[j].ids@.len()
                ==> self.str_db@[j].ids@[m] < self.cur_id
    }

    /// The posting set for trigram `t` contains file id `id`.
    pub open spec fn posting_has(self, t: Seq<char>, id: u32) -> bool {
        db_posting_has(self.str_db@, t, id)
    }

    /// File `id` is a candidate for needle `nd`: every trigram of `nd`
    /// has `id` in its posting set.
    pub open spec fn is_candidate(self, nd: Seq<char>, id: u32) -> bool {
        forall|i: int| 0 <= i && i + 3 <= nd.len() ==> self.posting_has(trigram_at(nd, i), id)
    }

    /// Create an empty index for the project rooted at `project`.
    pub fn new(project: &str) -> (r: Idb)
        ensures
            r.wf(),
            r.cur_id == 0,
            r.project_root@ == project@,
            r.idx_db@.len() == 0,
            r.str_db@.len() == 0,
    {
        Idb {
            cur_id: 0,
            project_root: project.to_owned(),
            idx_db: Vec::new(),
            str_db: Vec::new(),
        }
    }

    /// Find the posting entry for `key`, if any.
    pub fn lookup(&self, key: &String) -> (r: Option<usize>)
        ensures
            match r {
                Some(j) => j < self.str_db@.len() && self.str_db@[j as int].key@ == key@,
                None => forall|j: int|
                    0 <= j < self.str_db@.len() ==> self.str_db@[j].key@ != key@,
            },
    {
        let mut j: usize = 0;
        while j < self.str_db.len()
            invariant
                j <= self.str_db@.len(),
                forall|k: int| 0 <= k < j ==> self.str_db@[k].key@ != key@,
            decreases self.str_db@.len() - j,
        {
            if self.str_db[j].key == *key {
                return Some(j);
            }
            j = j + 1;
        }
        None
    }

    /// Record a new file: assign it the next id, remember its path, and
    /// add the id to the posting set of every trigram in `keys`.
    ///
    /// `keys` must be pre-deduplicated (the pipeline collapses the
    /// trigram multiset of the content into a set).
    pub fn add_file(&mut self, fname: &str, keys: &Vec<String>)
        requires
            old(self).wf(),
            old(self).cur_id < u32::MAX,
            forall|a: int, b: int| 0 <= a < b < keys@.len() ==> keys@[a]@ != keys@[b]@,
        ensures
            final(self).wf(),
            final(self).cur_id == old(self).cur_id + 1,
            final(self).project_root@ == old(self).project_root@,
            final(self).idx_db@.len() == old(self).idx_db@.len() + 1,
            final(self).idx_db@[old(self).idx_db@.len() as int]@ == fname@,
            forall|k: int|
                0 <= k < old(self).idx_db@.len() ==> final(self).idx_db@[k] == old(
                    self,
                ).idx_db@[k],
            forall|t: Seq<char>, id: u32|
                final(self).posting_has(t, id) <==> (old(self).posting_has(t, id) || (id == old(
                    self,
                ).cur_id && exists|k: int| 0 <= k < keys@.len() && keys@[k]@ == t)),
    {
        let id = self.cur_id;
        self.cur_id = self.cur_id + 1;
        self.idx_db.push(fname.to_owned());

        let ghost old_db = self.str_db@;
        let ghost new_idx = self.idx_db@;
        let mut k: usize = 0;
        while k < keys.len()
            invariant
                self.cur_id == id + 1,
                self.project_root == old(self).project_root,
                self.idx_db@ == new_idx,
                new_idx.len() == old(self).idx_db@.len() + 1,
                new_idx[old(self).idx_db@.len() as int]@ == fname@,
                forall|m: int| 0 <= m < old(self).idx_db@.len() ==> new_idx[m] == old(
                    self,
                ).idx_db@[m],
                forall|a: int, b: int| 0 <= a < b < keys@.len() ==> keys@[a]@ != keys@[b]@,
                // key uniqueness is preserved
                forall|j1: int, j2: int|
                    0 <= j1 < j2 < self.str_db@.len() ==> self.str_db@[j1].key@
                        != self.str_db@[j2].key@,
                // postings stay duplicate-free and bounded by the new cur_id
                forall|j: int|
                    0 <= j < self.str_db@.len() ==> self.str_db@[j].ids@.no_duplicates(),
                forall|j: int, m: int|
                    0 <= j < self.str_db@.len() && 0 <= m < self.str_db@[j].ids@.len()
                        ==> self.str_db@[j].ids@[m] < self.cur_id,
                // a posting that holds the new id is one of the keys seen so far
                forall|j: int|
                    0 <= j < self.str_db@.len() && self.str_db@[j].ids@.contains(id)
                        ==> exists|kk: int| 0 <= kk < k && keys@[kk]@ == self.str_db@[j].key@,
                // the posting relation so far
                k <= keys@.len(),
                forall|t: Seq<char>, i: u32|
                    #[trigger] db_posting_has(self.str_db@, t, i) <==> (db_posting_has(old_db, t, i)
                        || (i == id && exists|kk: int| 0 <= kk < k && keys@[kk]@ == t)),
            decreases keys@.len() - k,
        {
            let ghost dbk = self.str_db@;
            let key = &keys[k];
            match self.lookup(key) {
                Some(j) => {
                    proof {
                        // this posting does not hold `id` yet: otherwise its
                        // key would equal an earlier key, contradicting
                        // the distinctness of `keys`
                        if self.str_db@[j as int].ids@.contains(id) {
                            let kk = choose|kk: int|
                                0 <= kk < k && keys@[kk]@ == self.str_db@[j as int].key@;
                            assert(keys@[kk]@ == keys@[k as int]@);
                            assert(false);
                        }
                    }
                    let mut ids = self.str_db[j].ids.clone();
                    ids.push(id);
                    let new_key = self.str_db[j].key.clone();
                    self.str_db.set(j, Posting { key: new_key, ids });
                    proof {
                        let db1 = self.str_db@;
                        assert(db1[j as int].key@ == keys@[k as int]@);
                        assert(db1[j as int].ids@ == dbk[j as int].ids@.push(id));
                        assert forall|t: Seq<char>, i: u32| #[trigger]
                            db_posting_has(db1, t, i) implies (db_posting_has(dbk, t, i) || (i
                            == id && t == keys@[k as int]@)) by {
                            let j2 = choose|j2: int|
                                0 <= j2 < db1.len() && db1[j2].key@ == t && db1[j2].ids@.contains(
                                    i,
                                );
                            if j2 == j as int {
                                if i != id {
                                    let m = choose|m: int|
                                        0 <= m < db1[j2].ids@.len() && db1[j2].ids@[m] == i;
                                    assert(dbk[j2].ids@[m] == i);
                                    assert(db_posting_has(dbk, t, i));
                                }
                            } else {
                                assert(db_posting_has(dbk, t, i));
                            }
                        }
                        assert forall|t: Seq<char>, i: u32|
                            (db_posting_has(dbk, t, i) || (i == id && t
                                == keys@[k as int]@)) implies #[trigger] db_posting_has(
                            db1,
                            t,
                            i,
                        ) by {
                            if db_posting_has(dbk, t, i) {
                                let j2 = choose|j2: int|
                                    0 <= j2 < dbk.len() && dbk[j2].key@ == t
                                        && dbk[j2].ids@.contains(i);
                                if j2 == j as int {
                                    let m = choose|m: int|
                                        0 <= m < dbk[j2].ids@.len() && dbk[j2].ids@[m] == i;
                                    assert(db1[j2].ids@[m] == i);
                                } else {
                                    assert(db1[j2].key@ == t && db1[j2].ids@.contains(i));
                                }
                            } else {
                                let m = db1[j as int].ids@.len() - 1;
                                assert(db1[j as int].ids@[m] == id);
                            }
                        }
                    }
                },
                None => {
                    let mut ids: Vec<u32> = Vec::new();
                    ids.push(id);
                    self.str_db.push(Posting { key: key.clone(), ids });
                    proof {
                        let db1 = self.str_db@;
                        assert(db1[dbk.len() as int].key@ == keys@[k as int]@);
                        assert(db1[dbk.len() as int].ids@[0] == id);
                        assert forall|t: Seq<char>, i: u32| #[trigger]
                            db_posting_has(db1, t, i) implies (db_posting_has(dbk, t, i) || (i
                            == id && t == keys@[k as int]@)) by {
                            let j2 = choose|j2: int|
                                0 <= j2 < db1.len() && db1[j2].key@ == t && db1[j2].ids@.contains(
                                    i,
                                );
                            if j2 < dbk.len() {
                                assert(db_posting_has(dbk, t, i));
                            } else {
                                assert(db1[j2].ids@ =~= seq![id]);
                            }
                        }
                        assert forall|t: Seq<char>, i: u32|
                            (db_posting_has(dbk, t, i) || (i == id && t
                                == keys@[k as int]@)) implies #[trigger] db_posting_has(
                            db1,
                            t,
                            i,
                        ) by {
                            if db_posting_has(dbk, t, i) {
                                let j2 = choose|j2: int|
                                    0 <= j2 < dbk.len() && dbk[j2].key@ == t
                                        && dbk[j2].ids@.contains(i);
                                assert(db1[j2].key@ == t && db1[j2].ids@.contains(i));
                            } else {
                                assert(db1[dbk.len() as int].ids@.contains(id));
                            }
                        }
                    }
                },
            }
            k = k + 1;
        }
    }

    /// File `id` is in the posting set of every trigram of the first
    /// `k` trigram positions of `nd`.
    pub open spec fn candidate_upto(self, nd: Seq<char>, id: u32, k: int) -> bool {
        forall|i: int| 0 <= i < k ==> self.posting_has(trigram_at(nd, i), id)
    }

    /// Index one file's content under path `fname`: the verified core of
    /// the tokenizer and inserter pipeline stages.  Contents of fewer
    /// than 4 code points are dropped and leave the index unchanged.
    pub fn index_text(&mut self, fname: &str, content: &str)
        requires
            old(self).wf(),
            old(self).cur_id < u32::MAX,
        ensures
            final(self).wf(),
            final(self).project_root@ == old(self).project_root@,
            content@.len() < 4 ==> *final(self) == *old(self),
            content@.len() >= 4 ==> {
                &&& final(self).cur_id == old(self).cur_id + 1
                &&& final(self).idx_db@.len() == old(self).idx_db@.len() + 1
                &&& final(self).idx_db@[old(self).idx_db@.len() as int]@ == fname@
                &&& forall|k: int|
                    0 <= k < old(self).idx_db@.len() ==> final(self).idx_db@[k] == old(
                        self,
                    ).idx_db@[k]
                &&& forall|t: Seq<char>, id: u32|
                    final(self).posting_has(t, id) <==> (old(self).posting_has(t, id) || (id
                        == old(self).cur_id && has_trigram(content@, t)))
            },
    {
        let n = content.unicode_len();
        if n < 4 {
            return ;
        }
        let keys = trigram_set(content);
        self.add_file(fname, &keys);
        proof {
            assert forall|t: Seq<char>, id: u32|
                self.posting_has(t, id) <==> (old(self).posting_has(t, id) || (id == old(
                    self,
                ).cur_id && has_trigram(content@, t))) by {
                assert((exists|k: int| 0 <= k < keys@.len() && keys@[k]@ == t) == strs_contain(
                    keys@,
                    t,
                ));
            }
        }
    }

    /// The ids of the files that are candidates for `input`: tokenize the
    /// needle and intersect the posting sets of its trigrams.  A needle
    /// of fewer than 3 code points has no candidates.
    #[verifier::rlimit(100)]
    pub fn candidate_ids(&self, input: &str) -> (r: Vec<u32>)
        requires
            self.wf(),
        ensures
            r@.no_duplicates(),
            forall|id: u32|
                #[trigger] r@.contains(id) <==> (input@.len() >= 3 && self.is_candidate(
                    input@,
                    id,
                )),
    {
        let n = input.unicode_len();
        if n < 3 {
            let empty: Vec<u32> = Vec::new();
            return empty;
        }
        let toks = tokenize(input);
        // look up the posting entry of every trigram of the needle; if
        // any is absent there is no candidate at all
        let mut js: Vec<usize> = Vec::new();
        let mut k: usize = 0;
        while k < toks.len()
            invariant
                n == input@.len(),
                n >= 3,
                toks@.len() == n - 2,
                forall|i: int| 0 <= i < toks@.len() ==> toks@[i]@ == trigram_at(input@, i),
                k <= toks@.len(),
                js@.len() == k,
                forall|m: int| 0 <= m < k ==> (#[trigger] js@[m]) < self.str_db@.len(),
                forall|m: int|
                    0 <= m < k ==> self.str_db@[(#[trigger] js@[m]) as int].key@ == trigram_at(
                        input@,
                        m,
                    ),
            decreases toks@.len() - k,
        {
            match self.lookup(&toks[k]) {
                Some(j) => {
                    js.push(j);
                },
                None => {
                    proof {
                        assert forall|id: u32| !(input@.len() >= 3 && self.is_candidate(
                            input@,
                            id,
                        )) by {
                            if self.posting_has(trigram_at(input@, k as int), id) {
                                let j = choose|j: int|
                                    0 <= j < self.str_db@.len() && self.str_db@[j].key@
                                        == trigram_at(input@, k as int)
                                        && self.str_db@[j].ids@.contains(id);
                                assert(false);
                            }
                            assert(!self.is_candidate(input@, id));
                        }
                    }
                    let empty: Vec<u32> = Vec::new();
                    return empty;
                },
            }
            k = k + 1;
        }
        // fold the intersection over the posting sets
        let mut acc: Vec<u32> = self.str_db[js[0]].ids.clone();
        proof {
            let j0 = js@[0] as int;
            assert forall|id: u32|
                #[trigger] acc@.contains(id) <==> self.candidate_upto(input@, id, 1) by {
                if acc@.contains(id) {
                    assert forall|i: int| 0 <= i < 1 implies self.posting_has(
                        trigram_at(input@, i),
                        id,
                    ) by {
                        assert(self.str_db@[j0].key@ == trigram_at(input@, 0));
                    }
                }
                if self.candidate_upto(input@, id, 1) {
                    assert(self.posting_has(trigram_at(input@, 0), id));
                    let j = choose|j: int|
                        0 <= j < self.str_db@.len() && self.str_db@[j].key@ == trigram_at(
                            input@,
                            0,
                        ) && self.str_db@[j].ids@.contains(id);
                    assert(j == j0);
                }
            }
        }
        let mut k: usize = 1;
        while k < js.len()
            invariant
                n == input@.len(),
                n >= 3,
                self.wf(),
                js@.len() == n - 2,
                forall|m: int| 0 <= m < js@.len() ==> (#[trigger] js@[m]) < self.str_db@.len(),
                forall|m: int|
                    0 <= m < js@.len() ==> self.str_db@[(#[trigger] js@[m]) as int].key@
                        == trigram_at(input@, m),
                1 <= k <= js@.len(),
                acc@.no_duplicates(),
                forall|id: u32|
                    #[trigger] acc@.contains(id) <==> self.candidate_upto(input@, id, k as int),
            decreases js@.len() - k,
        {
            let j = js[k];
            let mut newacc: Vec<u32> = Vec::new();
            let mut m: usize = 0;
            while m < acc.len()
                invariant
                    0 <= j < self.str_db@.len(),
                    m <= acc@.len(),
                    acc@.no_duplicates(),
                    newacc@.no_duplicates(),
                    forall|id: u32|
                        #[trigger] newacc@.contains(id) <==> (acc@.subrange(0, m as int).contains(
                            id,
                        ) && self.str_db@[j as int].ids@.contains(id)),
                decreases acc@.len() - m,
            {
                let ghost na0 = newacc@;
                if vec_contains_u32(&self.str_db[j].ids, acc[m]) {
                    proof {
                        if newacc@.contains(acc@[m as int]) {
                            let q = choose|q: int|
                                0 <= q < acc@.subrange(0, m as int).len() && acc@.subrange(
                                    0,
                                    m as int,
                                )[q] == acc@[m as int];
                            assert(acc@[q] == acc@[m as int]);
                            assert(false);
                        }
                    }
                    newacc.push(acc[m]);
                }
                proof {
                    assert forall|id: u32|
                        #[trigger] newacc@.contains(id) <==> (acc@.subrange(0, m + 1).contains(id)
                            && self.str_db@[j as int].ids@.contains(id)) by {
                        if newacc@.contains(id) {
                            let q = choose|q: int|
                                0 <= q < newacc@.len() && newacc@[q] == id;
                            if q < na0.len() {
                                assert(na0.contains(id));
                                let w = choose|w: int|
                                    0 <= w < m && acc@.subrange(0, m as int)[w] == id;
                                assert(acc@.subrange(0, m + 1)[w] == id);
                            } else {
                                assert(id == acc@[m as int]);
                                assert(acc@.subrange(0, m + 1)[m as int] == id);
                            }
                        }
                        if acc@.subrange(0, m + 1).contains(id) && self.str_db@[j as int].ids@.contains(id) {
                            let w = choose|w: int|
                                0 <= w < m + 1 && #[trigger] acc@.subrange(0, m + 1)[w] == id;
                            if w < m {
                                assert(acc@.subrange(0, m as int)[w] == id);
                                assert(na0.contains(id));
                                let q = choose|q: int| 0 <= q < na0.len() && na0[q] == id;
                                assert(newacc@[q] == id);
                            } else {
                                assert(id == acc@[m as int]);
                                assert(newacc@[newacc@.len() - 1] == id);
                            }
                        }
                    }
                }
                m = m + 1;
            }
            proof {
                assert(acc@.subrange(0, acc@.len() as int) =~= acc@);
                assert forall|id: u32|
                    #[trigger] newacc@.contains(id) <==> self.candidate_upto(
                        input@,
                        id,
                        k + 1,
                    ) by {
                    if newacc@.contains(id) {
                        assert(acc@.contains(id));
                        assert(self.candidate_upto(input@, id, k as int));
                        assert forall|i: int| 0 <= i < k + 1 implies self.posting_has(
                            trigram_at(input@, i),
                            id,
                        ) by {
                            if i == k {
                                assert(self.str_db@[j as int].key@ == trigram_at(
                                    input@,
                                    k as int,
                                ));
                            }
                        }
                    }
                    if self.candidate_upto(input@, id, k + 1) {
                        assert(self.candidate_upto(input@, id, k as int));
                        assert(acc@.contains(id));
                        assert(self.posting_has(trigram_at(input@, k as int), id));
                        let j2 = choose|j2: int|
                            0 <= j2 < self.str_db@.len() && self.str_db@[j2].key@ == trigram_at(
                                input@,
                                k as int,
                            ) && self.str_db@[j2].ids@.contains(id);
                        assert(j2 == j as int);
                    }
                }
            }
            acc = newacc;
            k = k + 1;
        }
        proof {
            assert forall|id: u32|
                #[trigger] acc@.contains(id) <==> (input@.len() >= 3 && self.is_candidate(
                    input@,
                    id,
                )) by {
                assert(self.candidate_upto(input@, id, (n - 2) as int) == self.is_candidate(
                    input@,
                    id,
                ));
            }
        }
        acc
    }

    /// The paths of the candidate files for `input`, in id order of the
    /// intersected posting sets.
    pub fn find_file_names(&self, input: &str) -> (r: Vec<String>)
        requires
            self.wf(),
        ensures
            exists|ids: Seq<u32>|
                {
                    &&& ids.no_duplicates()
                    &&& forall|id: u32|
                        #[trigger] ids.contains(id) <==> (input@.len() >= 3
                            && self.is_candidate(input@, id))
                    &&& r@.len() == ids.len()
                    &&& forall|k: int|
                        0 <= k < ids.len() ==> ids[k] < self.idx_db@.len() && r@[k]@
                            == self.idx_db@[ids[k] as int]@
                },
    {
        let cids = self.candidate_ids(input);
        let mut r: Vec<String> = Vec::new();
        let mut k: usize = 0;
        while k < cids.len()
            invariant
                self.wf(),
                k <= cids@.len(),
                forall|id: u32|
                    #[trigger] cids@.contains(id) <==> (input@.len() >= 3
                        && self.is_candidate(input@, id)),
                r@.len() == k,
                forall|m: int|
                    0 <= m < k ==> cids@[m] < self.idx_db@.len()
                        && r@[m]@ == self.idx_db@[cids@[m] as int]@,
            decreases cids@.len() - k,
        {
            proof {
                assert(cids@.contains(cids@[k as int]));
                let id = cids@[k as int];
                assert(self.posting_has(trigram_at(input@, 0), id));
                let j = choose|j: int|
                    0 <= j < self.str_db@.len() && self.str_db@[j].key@ == trigram_at(input@, 0)
                        && self.str_db@[j].ids@.contains(id);
                let m = choose|m: int|
                    0 <= m < self.str_db@[j].ids@.len() && self.str_db@[j].ids@[m] == id;
                assert(id < self.cur_id);
            }
            let id = cids[k];
            r.push(self.idx_db[id as usize].clone());
            k = k + 1;
        }
        proof {
            let ids = cids@;
            assert(r@.len() == ids.len());
        }
        r
    }
}

/// Candidate soundness: an indexed file whose content contains the
/// needle is always among the candidates for that needle.
///
/// The premise states what `index_text` establishes for the file's id:
/// every trigram of its content has the id in its posting set.
pub proof fn lemma_candidate_soundness(idb: Idb, content: Seq<char>, needle: Seq<char>, id: u32)
    requires
        needle.len() >= 3,
        contains_substr(content, needle),
        forall|t: Seq<char>| has_trigram(content, t) ==> #[trigger] idb.posting_has(t, id),
    ensures
        idb.is_candidate(needle, id),
{
    let p = choose|p: int| is_match_at(content, needle, p);
    assert forall|i: int| 0 <= i && i + 3 <= needle.len() implies idb.posting_has(
        trigram_at(needle, i),
        id,
    ) by {
        assert forall|q: int| 0 <= q < 3 implies trigram_at(content, p + i)[q] == trigram_at(
            needle,
            i,
        )[q] by {
            assert(content[p + (i + q)] == needle[i + q]);
        }
        assert(trigram_at(content, p + i) =~= trigram_at(needle, i));
        assert(has_trigram(content, trigram_at(needle, i)));
    }
}

} // verus!
