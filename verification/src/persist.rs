//! Persistence: the index as a self-describing text document.
//!
//! The document names its fields literally: `cur_id`, `project_root`,
//! `idx_db` and `str_db`, each section prefixed with its entry count,
//! strings length-prefixed.  `decode_idb` accepts exactly well-formed
//! documents and recovers the encoded index: loading what was saved
//! gives the index back.

use vstd::prelude::*;

use crate::codec::{
    dec_digits, digit_run_end, digits_val, enc_str, enc_str_at, expect_lit, is_digit,
    lemma_dec_digits, lemma_digit_run_end_at, lemma_digit_run_end_bounds, lemma_parse_str_of_enc,
    parse_str, parse_u64, push_str_enc, push_u64,
};
use crate::idb::{vec_contains_u32, Idb, Posting};

verus! {

/// The encoding of a posting's id list: each id as ` <decimal>`.
pub open spec fn enc_ids(ids: Seq<u32>) -> Seq<char>
    decreases ids.len(),
{
    if ids.len() == 0 {
        Seq::empty()
    } else {
        enc_ids(ids.drop_last()) + seq![' '] + dec_digits(ids.last() as nat)
    }
}

/// The encoding of one posting entry: key, id count, ids, newline.
pub open spec fn enc_posting(p: Posting) -> Seq<char> {
    enc_str(p.key@) + seq![' '] + dec_digits(p.ids@.len()) + enc_ids(p.ids@) + seq!['\n']
}

pub open spec fn enc_postings(db: Seq<Posting>) -> Seq<char>
    decreases db.len(),
{
    if db.len() == 0 {
        Seq::empty()
    } else {
        enc_postings(db.drop_last()) + enc_posting(db.last())
    }
}

pub open spec fn enc_paths(ps: Seq<String>) -> Seq<char>
    decreases ps.len(),
{
    if ps.len() == 0 {
        Seq::empty()
    } else {
        enc_paths(ps.drop_last()) + enc_str(ps.last()@) + seq!['\n']
    }
}

/// The whole document.
pub open spec fn enc_idb(idb: Idb) -> Seq<char> {
    "cur_id "@ + dec_digits(idb.cur_id as nat) + seq!['\n'] + "project_root "@ + enc_str(
        idb.project_root@,
    ) + seq!['\n'] + "idx_db "@ + dec_digits(idb.idx_db@.len()) + seq!['\n'] + enc_paths(
        idb.idx_db@,
    ) + "str_db "@ + dec_digits(idb.str_db@.len()) + seq!['\n'] + enc_postings(idb.str_db@)
}

/// Two indexes that agree as values: same id assignment, same root,
/// same paths, and the same posting table.
pub open spec fn idb_like(a: Idb, b: Idb) -> bool {
    &&& a.cur_id == b.cur_id
    &&& a.project_root@ == b.project_root@
    &&& a.idx_db@.len() == b.idx_db@.len()
    &&& forall|k: int| 0 <= k < a.idx_db@.len() ==> a.idx_db@[k]@ == b.idx_db@[k]@
    &&& a.str_db@.len() == b.str_db@.len()
    &&& forall|j: int|
        0 <= j < a.str_db@.len() ==> a.str_db@[j].key@ == b.str_db@[j].key@ && a.str_db@[j].ids@
            == b.str_db@[j].ids@
}

pub(crate) proof fn lemma_enc_paths_step(ps: Seq<String>, k: int)
    requires
        0 <= k < ps.len(),
    ensures
        enc_paths(ps.subrange(0, k + 1)) == enc_paths(ps.subrange(0, k)) + enc_str(ps[k]@)
            + seq!['\n'],
{
    assert(ps.subrange(0, k + 1).drop_last() =~= ps.subrange(0, k));
    assert(ps.subrange(0, k + 1).last() == ps[k]);
}

proof fn lemma_enc_postings_step(db: Seq<Posting>, k: int)
    requires
        0 <= k < db.len(),
    ensures
        enc_postings(db.subrange(0, k + 1)) == enc_postings(db.subrange(0, k)) + enc_posting(
            db[k],
        ),
{
    assert(db.subrange(0, k + 1).drop_last() =~= db.subrange(0, k));
    assert(db.subrange(0, k + 1).last() == db[k]);
}

proof fn lemma_enc_ids_step(ids: Seq<u32>, k: int)
    requires
        0 <= k < ids.len(),
    ensures
        enc_ids(ids.subrange(0, k + 1)) == enc_ids(ids.subrange(0, k)) + seq![' '] + dec_digits(
            ids[k] as nat,
        ),
{
    assert(ids.subrange(0, k + 1).drop_last() =~= ids.subrange(0, k));
    assert(ids.subrange(0, k + 1).last() == ids[k]);
}


/// The remaining path entries, from index `k` on.
pub open spec fn enc_paths_from(ps: Seq<String>, k: int) -> Seq<char>
    recommends
        0 <= k <= ps.len(),
    decreases ps.len() - k when 0 <= k <= ps.len()
{
    if k >= ps.len() {
        Seq::empty()
    } else {
        enc_str(ps[k]@) + seq!['\n'] + enc_paths_from(ps, k + 1)
    }
}

/// The remaining posting entries, from index `k` on.
pub open spec fn enc_postings_from(db: Seq<Posting>, k: int) -> Seq<char>
    recommends
        0 <= k <= db.len(),
    decreases db.len() - k when 0 <= k <= db.len()
{
    if k >= db.len() {
        Seq::empty()
    } else {
        enc_posting(db[k]) + enc_postings_from(db, k + 1)
    }
}

/// The remaining ids of a posting, from index `k` on.
pub open spec fn enc_ids_from(ids: Seq<u32>, k: int) -> Seq<char>
    recommends
        0 <= k <= ids.len(),
    decreases ids.len() - k when 0 <= k <= ids.len()
{
    if k >= ids.len() {
        Seq::empty()
    } else {
        seq![' '] + dec_digits(ids[k] as nat) + enc_ids_from(ids, k + 1)
    }
}

pub(crate) proof fn lemma_paths_split(ps: Seq<String>, k: int)
    requires
        0 <= k <= ps.len(),
    ensures
        enc_paths(ps) == enc_paths(ps.subrange(0, k)) + enc_paths_from(ps, k),
    decreases ps.len() - k,
{
    if k == ps.len() {
        assert(ps.subrange(0, k) =~= ps);
        assert(enc_paths(ps) =~= enc_paths(ps.subrange(0, k)) + enc_paths_from(ps, k));
    } else {
        lemma_paths_split(ps, k + 1);
        lemma_enc_paths_step(ps, k);
        assert(enc_paths(ps) =~= enc_paths(ps.subrange(0, k)) + enc_paths_from(ps, k));
    }
}

proof fn lemma_postings_split(db: Seq<Posting>, k: int)
    requires
        0 <= k <= db.len(),
    ensures
        enc_postings(db) == enc_postings(db.subrange(0, k)) + enc_postings_from(db, k),
    decreases db.len() - k,
{
    if k == db.len() {
        assert(db.subrange(0, k) =~= db);
        assert(enc_postings(db) =~= enc_postings(db.subrange(0, k)) + enc_postings_from(db, k));
    } else {
        lemma_postings_split(db, k + 1);
        lemma_enc_postings_step(db, k);
        assert(enc_postings(db) =~= enc_postings(db.subrange(0, k)) + enc_postings_from(db, k));
    }
}

proof fn lemma_ids_split(ids: Seq<u32>, k: int)
    requires
        0 <= k <= ids.len(),
    ensures
        enc_ids(ids) == enc_ids(ids.subrange(0, k)) + enc_ids_from(ids, k),
    decreases ids.len() - k,
{
    if k == ids.len() {
        assert(ids.subrange(0, k) =~= ids);
        assert(enc_ids(ids) =~= enc_ids(ids.subrange(0, k)) + enc_ids_from(ids, k));
    } else {
        lemma_ids_split(ids, k + 1);
        lemma_enc_ids_step(ids, k);
        assert(enc_ids(ids) =~= enc_ids(ids.subrange(0, k)) + enc_ids_from(ids, k));
    }
}

/// Carve the middle piece out of a concatenation.
proof fn lemma_take_mid(s: Seq<char>, pre: Seq<char>, mid: Seq<char>, post: Seq<char>)
    requires
        s == pre + mid + post,
    ensures
        s.len() == pre.len() + mid.len() + post.len(),
        s.subrange(pre.len() as int, (pre.len() + mid.len()) as int) == mid,
        forall|q: int| 0 <= q < post.len() ==> s[pre.len() + mid.len() + q] == post[q],
{
    assert(s.subrange(pre.len() as int, (pre.len() + mid.len()) as int) =~= mid);
}

/// A decimal number embedded before a non-digit parses to its value.
proof fn lemma_embed_num(s: Seq<char>, pre: Seq<char>, v: nat, post: Seq<char>)
    requires
        s == pre + dec_digits(v) + post,
        post.len() > 0,
        !is_digit(post[0]),
        v <= u64::MAX,
    ensures
        digit_run_end(s, pre.len() as int) == pre.len() + dec_digits(v).len(),
        digits_val(s.subrange(pre.len() as int, (pre.len() + dec_digits(v).len()) as int)) == v,
        pre.len() + dec_digits(v).len() < s.len(),
        pre.len() < s.len() && is_digit(s[pre.len() as int]),
{
    lemma_take_mid(s, pre, dec_digits(v), post);
    lemma_dec_digits(v);
    let i = pre.len() as int;
    let d = dec_digits(v).len() as int;
    assert forall|m: int| i <= m < i + d implies is_digit(s[m]) by {
        assert(s.subrange(i, i + d)[m - i] == s[m]);
    }
    assert(s[i + d] == post[0]);
    lemma_digit_run_end_at(s, i, i + d);
    assert(s.subrange(i, i + d) == dec_digits(v));
    assert(is_digit(s[i]));
}

/// A decimal number whose digits stand at `i`, followed by a non-digit,
/// parses to its value.
proof fn lemma_embed_num_at(s: Seq<char>, i: int, v: nat, nxt: char)
    requires
        0 <= i,
        i + dec_digits(v).len() < s.len(),
        s.subrange(i, i + dec_digits(v).len()) == dec_digits(v),
        s[i + dec_digits(v).len()] == nxt,
        !is_digit(nxt),
        v <= u64::MAX,
    ensures
        digit_run_end(s, i) == i + dec_digits(v).len(),
        digits_val(s.subrange(i, i + dec_digits(v).len())) == v,
        is_digit(s[i]),
{
    lemma_dec_digits(v);
    let dl = dec_digits(v).len() as int;
    assert forall|m: int| i <= m < i + dl implies is_digit(s[m]) by {
        assert(s.subrange(i, i + dl)[m - i] == s[m]);
    }
    lemma_digit_run_end_at(s, i, i + dl);
    assert(s.subrange(i, i + dl)[0] == s[i]);
}

/// Size bounds that every index held in memory meets: a machine limit,
/// not a logical one.
pub open spec fn size_ok(idb: Idb) -> bool {
    &&& idb.str_db@.len() <= usize::MAX
    &&& forall|j: int| 0 <= j < idb.str_db@.len() ==> idb.str_db@[j].ids@.len() <= usize::MAX
}

/// The premise of the round trip: the document is the encoding of a
/// well-formed index.
pub open spec fn encodes(doc: Seq<char>, idb: Idb) -> bool {
    idb.wf() && size_ok(idb) && doc == enc_idb(idb)
}

/// `r` recovers `idb`.
pub open spec fn decodes_to(r: Option<Idb>, idb: Idb) -> bool {
    match r {
        Some(out) => idb_like(out, idb),
        None => false,
    }
}

/// The header of the document, before the path entries.
pub open spec fn hdr(idb: Idb) -> Seq<char> {
    "cur_id "@ + dec_digits(idb.cur_id as nat) + seq!['\n'] + "project_root "@ + enc_str(
        idb.project_root@,
    ) + seq!['\n'] + "idx_db "@ + dec_digits(idb.idx_db@.len()) + seq!['\n']
}

/// The section header between the paths and the postings.
pub open spec fn mid2(idb: Idb) -> Seq<char> {
    "str_db "@ + dec_digits(idb.str_db@.len()) + seq!['\n']
}

proof fn lemma_enc_idb_parts(idb: Idb)
    ensures
        enc_idb(idb) == hdr(idb) + enc_paths(idb.idx_db@) + mid2(idb) + enc_postings(idb.str_db@),
{
    assert(enc_idb(idb) =~= hdr(idb) + enc_paths(idb.idx_db@) + mid2(idb) + enc_postings(
        idb.str_db@,
    ));
}


/// The position of path entry `k` in the document.
pub open spec fn pathpos(idb: Idb, k: int) -> int {
    (hdr(idb).len() + enc_paths(idb.idx_db@.subrange(0, k)).len()) as int
}

/// The position of posting entry `j` in the document.
pub open spec fn postpos(idb: Idb, j: int) -> int {
    (hdr(idb).len() + enc_paths(idb.idx_db@).len() + mid2(idb).len() + enc_postings(
        idb.str_db@.subrange(0, j),
    ).len()) as int
}

/// The position of id `q` of posting `j` in the document.
pub open spec fn idpos(idb: Idb, j: int, q: int) -> int {
    (postpos(idb, j) + enc_str(idb.str_db@[j].key@).len() + 1 + dec_digits(
        idb.str_db@[j].ids@.len(),
    ).len() + enc_ids(idb.str_db@[j].ids@.subrange(0, q)).len()) as int
}

proof fn lemma_enc_ids_first(ids: Seq<u32>)
    requires
        ids.len() > 0,
    ensures
        enc_ids(ids).len() > 0,
        enc_ids(ids)[0] == ' ',
    decreases ids.len(),
{
    lemma_dec_digits(ids.last() as nat);
    if ids.len() == 1 {
        assert(enc_ids(ids.drop_last()) =~= Seq::<char>::empty());
        assert(enc_ids(ids)[0] == ' ');
    } else {
        lemma_enc_ids_first(ids.drop_last());
        assert(enc_ids(ids)[0] == enc_ids(ids.drop_last())[0]);
    }
}

/// The landmarks of the header and of the section between paths and
/// postings, and the end position of the document.
#[verifier::rlimit(100)]
proof fn lemma_landmarks(s: Seq<char>, idb: Idb)
    requires
        encodes(s, idb),
        s.len() <= u64::MAX,
    ensures
        ({
            let a = "cur_id "@;
            let c = dec_digits(idb.cur_id as nat);
            let d = "project_root "@;
            let e = enc_str(idb.project_root@);
            let g = "idx_db "@;
            let h = dec_digits(idb.idx_db@.len());
            let p1 = a.len() as int;
            let p2 = p1 + c.len();
            let p3 = p2 + 1;
            let p4 = p3 + d.len();
            let p5 = p4 + e.len();
            let p6 = p5 + 1;
            let p7 = p6 + g.len();
            let p8 = p7 + h.len();
            let p9 = p8 + 1;
            &&& p1 <= s.len() && s.subrange(0, p1) == a
            &&& digit_run_end(s, p1) == p2 && p1 < p2 < s.len() && digits_val(
                s.subrange(p1, p2),
            ) == idb.cur_id
            &&& p3 <= s.len() && s.subrange(p2, p3) == seq!['\n']
            &&& p4 <= s.len() && s.subrange(p3, p4) == d
            &&& idb.project_root@.len() <= u64::MAX && p5 <= s.len() && s.subrange(p4, p5)
                == enc_str(idb.project_root@)
            &&& p6 <= s.len() && s.subrange(p5, p6) == seq!['\n']
            &&& p7 <= s.len() && s.subrange(p6, p7) == g
            &&& digit_run_end(s, p7) == p8 && p7 < p8 < s.len() && digits_val(
                s.subrange(p7, p8),
            ) == idb.idx_db@.len()
            &&& p9 <= s.len() && s.subrange(p8, p9) == seq!['\n']
            &&& pathpos(idb, 0) == p9
        }),
        ({
            let sp = (hdr(idb).len() + enc_paths(idb.idx_db@).len()) as int;
            let k = "str_db "@;
            let l = dec_digits(idb.str_db@.len());
            let q7 = sp + k.len();
            let q8 = q7 + l.len();
            let q9 = q8 + 1;
            &&& pathpos(idb, idb.idx_db@.len() as int) == sp
            &&& q7 <= s.len() && s.subrange(sp, q7) == k
            &&& digit_run_end(s, q7) == q8 && q7 < q8 < s.len() && digits_val(
                s.subrange(q7, q8),
            ) == idb.str_db@.len()
            &&& q9 <= s.len() && s.subrange(q8, q9) == seq!['\n']
            &&& postpos(idb, 0) == q9
            &&& postpos(idb, idb.str_db@.len() as int) == s.len()
        }),
        s.subrange(
            pathpos(idb, 0),
            pathpos(idb, 0) + enc_paths(idb.idx_db@).len(),
        ) == enc_paths(idb.idx_db@),
        s.subrange(postpos(idb, 0), s.len() as int) == enc_postings(idb.str_db@),
{
    lemma_enc_idb_parts(idb);
    let a = "cur_id "@;
    let c = dec_digits(idb.cur_id as nat);
    let d = "project_root "@;
    let e = enc_str(idb.project_root@);
    let g = "idx_db "@;
    let h = dec_digits(idb.idx_db@.len());
    let nl = seq!['\n'];
    let paths = enc_paths(idb.idx_db@);
    let k = "str_db "@;
    let l = dec_digits(idb.str_db@.len());
    let posts = enc_postings(idb.str_db@);
    let p1 = a.len() as int;
    let p2 = p1 + c.len();
    let p3 = p2 + 1;
    let p4 = p3 + d.len();
    let p5 = p4 + e.len();
    let p6 = p5 + 1;
    let p7 = p6 + g.len();
    let p8 = p7 + h.len();
    let p9 = p8 + 1;
    let sp = p9 + paths.len();
    let q7 = sp + k.len();
    let q8 = q7 + l.len();
    let q9 = q8 + 1;
    assert(s.len() == q9 + posts.len());
    assert(s.subrange(0, p1) =~= a);
    assert(s.subrange(p1, p2) =~= c);
    assert(s[p2] == '\n');
    assert(s.subrange(p2, p3) =~= nl);
    assert(s.subrange(p3, p4) =~= d);
    assert(s.subrange(p4, p5) =~= e);
    assert(s[p5] == '\n');
    assert(s.subrange(p5, p6) =~= nl);
    assert(s.subrange(p6, p7) =~= g);
    assert(s.subrange(p7, p8) =~= h);
    assert(s[p8] == '\n');
    assert(s.subrange(p8, p9) =~= nl);
    assert(s.subrange(p9, sp) =~= paths);
    assert(s.subrange(sp, q7) =~= k);
    assert(s.subrange(q7, q8) =~= l);
    assert(s[q8] == '\n');
    assert(s.subrange(q8, q9) =~= nl);
    assert(s.subrange(q9, s.len() as int) =~= posts);
    assert(enc_paths(idb.idx_db@.subrange(0, 0)) =~= Seq::<char>::empty());
    assert(enc_postings(idb.str_db@.subrange(0, 0)) =~= Seq::<char>::empty());
    assert(hdr(idb).len() == p9);
    assert(mid2(idb).len() == k.len() + l.len() + 1);
    assert(idb.idx_db@.subrange(0, idb.idx_db@.len() as int) =~= idb.idx_db@);
    assert(idb.str_db@.subrange(0, idb.str_db@.len() as int) =~= idb.str_db@);
    lemma_embed_num_at(s, p1, idb.cur_id as nat, '\n');
    lemma_embed_num_at(s, p7, idb.idx_db@.len(), '\n');
    lemma_embed_num_at(s, q7, idb.str_db@.len(), '\n');
    lemma_parse_str_of_enc(s, p4, idb.project_root@);
}


/// Subranges of a known subrange.
proof fn lemma_sub_sub(s: Seq<char>, lo: int, hi: int, u: Seq<char>, x: int, y: int)
    requires
        0 <= lo <= hi <= s.len(),
        s.subrange(lo, hi) == u,
        0 <= x <= y <= u.len(),
    ensures
        s.subrange(lo + x, lo + y) == u.subrange(x, y),
        forall|m: int| 0 <= m < u.len() ==> s[lo + m] == u[m],
{
    assert forall|m: int| 0 <= m < u.len() implies s[lo + m] == u[m] by {
        assert(u[m] == s.subrange(lo, hi)[m]);
    }
    assert(s.subrange(lo + x, lo + y) =~= u.subrange(x, y));
}

/// The facts that parsing path entry `k` needs: its encoded string and
/// the newline after it stand at `pathpos(idb, k)`.
#[verifier::rlimit(100)]
proof fn lemma_path_entry(s: Seq<char>, idb: Idb, k: int)
    requires
        encodes(s, idb),
        s.len() <= u64::MAX,
        0 <= k < idb.idx_db@.len(),
    ensures
        ({
            let t = idb.idx_db@[k]@;
            let p = pathpos(idb, k);
            &&& t.len() <= u64::MAX
            &&& 0 <= p && p + enc_str(t).len() + 1 <= s.len()
            &&& s.subrange(p, p + enc_str(t).len()) == enc_str(t)
            &&& s.subrange(p + enc_str(t).len(), p + enc_str(t).len() + 1) == seq!['\n']
            &&& pathpos(idb, k + 1) == p + enc_str(t).len() + 1
            &&& pathpos(idb, k + 1) <= s.len()
        }),
{
    lemma_landmarks(s, idb);
    let ps = idb.idx_db@;
    let t = ps[k]@;
    let u = enc_paths(ps);
    let p0 = pathpos(idb, 0);
    lemma_paths_split(ps, k);
    lemma_enc_paths_step(ps, k);
    lemma_paths_split(ps, k + 1);
    let x = enc_paths(ps.subrange(0, k)).len() as int;
    assert(u.subrange(x, x + enc_str(t).len() + 1) =~= enc_str(t) + seq!['\n']) by {
        assert(enc_paths(ps.subrange(0, k + 1)) == enc_paths(ps.subrange(0, k)) + enc_str(t)
            + seq!['\n']);
        assert(enc_paths(ps) == enc_paths(ps.subrange(0, k + 1)) + enc_paths_from(ps, k + 1));
        assert forall|m: int| 0 <= m < enc_str(t).len() + 1 implies u[x + m] == (enc_str(t)
            + seq!['\n'])[m] by {
            assert(enc_paths(ps.subrange(0, k + 1))[x + m] == (enc_paths(ps.subrange(0, k))
                + enc_str(t) + seq!['\n'])[x + m]);
        }
    }
    lemma_sub_sub(s, p0, p0 + u.len(), u, x, x + enc_str(t).len() + 1);
    let p = pathpos(idb, k);
    assert(p == p0 + x);
    assert(s.subrange(p, p + enc_str(t).len() + 1) == enc_str(t) + seq!['\n']);
    lemma_sub_sub(
        s,
        p,
        p + enc_str(t).len() + 1,
        enc_str(t) + seq!['\n'],
        0,
        enc_str(t).len() as int,
    );
    assert((enc_str(t) + seq!['\n']).subrange(0, enc_str(t).len() as int) =~= enc_str(t));
    lemma_sub_sub(
        s,
        p,
        p + enc_str(t).len() + 1,
        enc_str(t) + seq!['\n'],
        enc_str(t).len() as int,
        (enc_str(t).len() + 1) as int,
    );
    assert((enc_str(t) + seq!['\n']).subrange(enc_str(t).len() as int, (enc_str(t).len() + 1) as int)
        =~= seq!['\n']);
    lemma_enc_paths_step(ps, k);
}

/// The facts for posting entry `j`: key, separator, and id count.
#[verifier::rlimit(100)]
proof fn lemma_posting_entry(s: Seq<char>, idb: Idb, j: int)
    requires
        encodes(s, idb),
        s.len() <= u64::MAX,
        0 <= j < idb.str_db@.len(),
    ensures
        ({
            let key = idb.str_db@[j].key@;
            let ids = idb.str_db@[j].ids@;
            let p = postpos(idb, j);
            let pk = p + enc_str(key).len();
            let pn = pk + 1;
            &&& key.len() <= u64::MAX
            &&& ids.len() <= u64::MAX
            &&& 0 <= p && p + enc_posting(idb.str_db@[j]).len() <= s.len()
            &&& s.subrange(p, pk) == enc_str(key)
            &&& s.subrange(pk, pn) == seq![' ']
            &&& digit_run_end(s, pn) == pn + dec_digits(ids.len()).len()
            &&& pn < pn + dec_digits(ids.len()).len() < s.len()
            &&& digits_val(s.subrange(pn, pn + dec_digits(ids.len()).len())) == ids.len()
            &&& idpos(idb, j, 0) == pn + dec_digits(ids.len()).len()
            &&& postpos(idb, j + 1) == p + enc_posting(idb.str_db@[j]).len()
        }),
{
    lemma_landmarks(s, idb);
    let db = idb.str_db@;
    let key = db[j].key@;
    let ids = db[j].ids@;
    let u = enc_postings(db);
    let p0 = postpos(idb, 0);
    lemma_postings_split(db, j);
    lemma_enc_postings_step(db, j);
    lemma_postings_split(db, j + 1);
    let x = enc_postings(db.subrange(0, j)).len() as int;
    let ep = enc_posting(db[j]);
    assert(u.subrange(x, x + ep.len()) =~= ep) by {
        assert(enc_postings(db.subrange(0, j + 1)) == enc_postings(db.subrange(0, j)) + ep);
        assert(enc_postings(db) == enc_postings(db.subrange(0, j + 1)) + enc_postings_from(
            db,
            j + 1,
        ));
        assert forall|m: int| 0 <= m < ep.len() implies u[x + m] == ep[m] by {
            assert(enc_postings(db.subrange(0, j + 1))[x + m] == (enc_postings(db.subrange(0, j))
                + ep)[x + m]);
        }
    }
    lemma_sub_sub(s, p0, p0 + u.len(), u, x, x + ep.len());
    let p = postpos(idb, j);
    assert(p == p0 + x);
    assert(s.subrange(p, p + ep.len()) == ep);
    let kl = enc_str(key).len() as int;
    let dl = dec_digits(ids.len()).len() as int;
    // carve the pieces of the posting out of ep
    assert(ep.subrange(0, kl) =~= enc_str(key));
    assert(ep.subrange(kl, kl + 1) =~= seq![' ']);
    assert(ep.subrange(kl + 1, kl + 1 + dl) =~= dec_digits(ids.len()));
    lemma_sub_sub(s, p, p + ep.len(), ep, 0, kl);
    lemma_sub_sub(s, p, p + ep.len(), ep, kl, kl + 1);
    lemma_sub_sub(s, p, p + ep.len(), ep, kl + 1, kl + 1 + dl);
    // the character after the count is a space or the newline: not a digit
    let pn = p + kl + 1;
    assert(ep[kl + 1 + dl] == (enc_ids(ids) + seq!['\n'])[0]);
    if ids.len() == 0 {
        assert(enc_ids(ids) =~= Seq::<char>::empty());
        assert(s[pn + dl] == '\n');
    } else {
        lemma_enc_ids_first(ids);
        assert(s[pn + dl] == ' ');
    }
    lemma_embed_num_at(s, pn, ids.len(), s[pn + dl]);
    assert(enc_ids(ids.subrange(0, 0)) =~= Seq::<char>::empty());
}

/// The facts for id `q` of posting `j`: a space, then the id's digits,
/// then a space or the closing newline.
#[verifier::rlimit(100)]
proof fn lemma_posting_id(s: Seq<char>, idb: Idb, j: int, q: int)
    requires
        encodes(s, idb),
        s.len() <= u64::MAX,
        0 <= j < idb.str_db@.len(),
        0 <= q < idb.str_db@[j].ids@.len(),
    ensures
        ({
            let ids = idb.str_db@[j].ids@;
            let ip = idpos(idb, j, q);
            let dl = dec_digits(ids[q] as nat).len();
            &&& 0 <= ip && ip + 1 + dl < s.len()
            &&& s.subrange(ip, ip + 1) == seq![' ']
            &&& digit_run_end(s, ip + 1) == ip + 1 + dl
            &&& digits_val(s.subrange(ip + 1, ip + 1 + dl)) == ids[q] as nat
            &&& idpos(idb, j, q + 1) == ip + 1 + dl
        }),
{
    lemma_landmarks(s, idb);
    let db = idb.str_db@;
    let key = db[j].key@;
    let ids = db[j].ids@;
    let u = enc_postings(db);
    let p0 = postpos(idb, 0);
    lemma_postings_split(db, j);
    lemma_enc_postings_step(db, j);
    lemma_postings_split(db, j + 1);
    let x = enc_postings(db.subrange(0, j)).len() as int;
    let ep = enc_posting(db[j]);
    assert(u.subrange(x, x + ep.len()) =~= ep) by {
        assert(enc_postings(db.subrange(0, j + 1)) == enc_postings(db.subrange(0, j)) + ep);
        assert(enc_postings(db) == enc_postings(db.subrange(0, j + 1)) + enc_postings_from(
            db,
            j + 1,
        ));
        assert forall|m: int| 0 <= m < ep.len() implies u[x + m] == ep[m] by {
            assert(enc_postings(db.subrange(0, j + 1))[x + m] == (enc_postings(db.subrange(0, j))
                + ep)[x + m]);
        }
    }
    lemma_sub_sub(s, p0, p0 + u.len(), u, x, x + ep.len());
    let p = postpos(idb, j);
    assert(p == p0 + x);
    let kl = enc_str(key).len() as int;
    let cl = dec_digits(ids.len()).len() as int;
    let base = kl + 1 + cl;
    // inside the id list of ep
    lemma_ids_split(ids, q);
    lemma_enc_ids_step(ids, q);
    lemma_ids_split(ids, q + 1);
    let y = enc_ids(ids.subrange(0, q)).len() as int;
    let dl = dec_digits(ids[q] as nat).len() as int;
    assert(ep.subrange(base + y, base + y + 1 + dl) =~= seq![' '] + dec_digits(ids[q] as nat)) by {
        assert(enc_ids(ids.subrange(0, q + 1)) == enc_ids(ids.subrange(0, q)) + seq![' ']
            + dec_digits(ids[q] as nat));
        assert(enc_ids(ids) == enc_ids(ids.subrange(0, q + 1)) + enc_ids_from(ids, q + 1));
        assert forall|m: int| 0 <= m < 1 + dl implies ep[base + y + m] == (seq![' '] + dec_digits(
            ids[q] as nat,
        ))[m] by {
            assert(ep[base + y + m] == (enc_str(key) + seq![' '] + dec_digits(ids.len()) + enc_ids(
                ids,
            ) + seq!['\n'])[base + y + m]);
            assert(enc_ids(ids.subrange(0, q + 1))[y + m] == (enc_ids(ids.subrange(0, q))
                + seq![' '] + dec_digits(ids[q] as nat))[y + m]);
        }
    }
    lemma_sub_sub(s, p, p + ep.len(), ep, base + y, base + y + 1 + dl);
    let ip = idpos(idb, j, q);
    assert(ip == p + base + y);
    lemma_sub_sub(
        s,
        ip,
        ip + 1 + dl,
        seq![' '] + dec_digits(ids[q] as nat),
        0,
        1,
    );
    assert((seq![' '] + dec_digits(ids[q] as nat)).subrange(0, 1) =~= seq![' ']);
    lemma_sub_sub(
        s,
        ip,
        ip + 1 + dl,
        seq![' '] + dec_digits(ids[q] as nat),
        1,
        1 + dl,
    );
    assert((seq![' '] + dec_digits(ids[q] as nat)).subrange(1, 1 + dl) =~= dec_digits(
        ids[q] as nat,
    ));
    // the character after the digits: the next separator or the newline
    assert(ep[base + y + 1 + dl] == (enc_ids_from(ids, q + 1) + seq!['\n'])[0]) by {
        assert(enc_ids(ids) == enc_ids(ids.subrange(0, q + 1)) + enc_ids_from(ids, q + 1));
        assert(ep[base + y + 1 + dl] == (enc_str(key) + seq![' '] + dec_digits(ids.len())
            + enc_ids(ids) + seq!['\n'])[base + y + 1 + dl]);
    }
    let nxt = s[ip + 1 + dl];
    assert(nxt == ep[base + y + 1 + dl]) by {
        assert(s.subrange(p, p + ep.len())[base + y + 1 + dl] == ep[base + y + 1 + dl]);
    }
    if q + 1 < ids.len() {
        assert((enc_ids_from(ids, q + 1) + seq!['\n'])[0] == ' ');
    } else {
        assert(enc_ids_from(ids, q + 1) =~= Seq::<char>::empty());
        assert((enc_ids_from(ids, q + 1) + seq!['\n'])[0] == '\n');
    }
    lemma_embed_num_at(s, ip + 1, ids[q] as nat, nxt);
}

/// The closing newline of posting `j` stands after its last id.
#[verifier::rlimit(100)]
proof fn lemma_posting_close(s: Seq<char>, idb: Idb, j: int)
    requires
        encodes(s, idb),
        s.len() <= u64::MAX,
        0 <= j < idb.str_db@.len(),
    ensures
        ({
            let ids = idb.str_db@[j].ids@;
            let ip = idpos(idb, j, ids.len() as int);
            &&& 0 <= ip && ip + 1 <= s.len()
            &&& s.subrange(ip, ip + 1) == seq!['\n']
            &&& postpos(idb, j + 1) == ip + 1
        }),
{
    lemma_landmarks(s, idb);
    let db = idb.str_db@;
    let key = db[j].key@;
    let ids = db[j].ids@;
    let u = enc_postings(db);
    let p0 = postpos(idb, 0);
    lemma_postings_split(db, j);
    lemma_enc_postings_step(db, j);
    lemma_postings_split(db, j + 1);
    let x = enc_postings(db.subrange(0, j)).len() as int;
    let ep = enc_posting(db[j]);
    assert(u.subrange(x, x + ep.len()) =~= ep) by {
        assert(enc_postings(db.subrange(0, j + 1)) == enc_postings(db.subrange(0, j)) + ep);
        assert(enc_postings(db) == enc_postings(db.subrange(0, j + 1)) + enc_postings_from(
            db,
            j + 1,
        ));
        assert forall|m: int| 0 <= m < ep.len() implies u[x + m] == ep[m] by {
            assert(enc_postings(db.subrange(0, j + 1))[x + m] == (enc_postings(db.subrange(0, j))
                + ep)[x + m]);
        }
    }
    lemma_sub_sub(s, p0, p0 + u.len(), u, x, x + ep.len());
    let p = postpos(idb, j);
    assert(p == p0 + x);
    let kl = enc_str(key).len() as int;
    let cl = dec_digits(ids.len()).len() as int;
    assert(ids.subrange(0, ids.len() as int) =~= ids);
    let ip = idpos(idb, j, ids.len() as int);
    assert(ip == p + kl + 1 + cl + enc_ids(ids).len());
    assert(ep.subrange(kl + 1 + cl + enc_ids(ids).len(), ep.len() as int) =~= seq!['\n']);
    lemma_sub_sub(s, p, p + ep.len(), ep, kl + 1 + cl + enc_ids(ids).len(), ep.len() as int);
}


/// The facts for entry `k` of a path list that stands as a region of a
/// larger document at `base`.
#[verifier::rlimit(100)]
pub(crate) proof fn lemma_paths_entry_in_region(s: Seq<char>, base: int, ps: Seq<String>, k: int)
    requires
        0 <= base,
        base + enc_paths(ps).len() <= s.len(),
        s.subrange(base, base + enc_paths(ps).len()) == enc_paths(ps),
        s.len() <= u64::MAX,
        0 <= k < ps.len(),
    ensures
        ({
            let t = ps[k]@;
            let p = base + enc_paths(ps.subrange(0, k)).len();
            &&& t.len() <= u64::MAX
            &&& base <= p && p + enc_str(t).len() + 1 <= s.len()
            &&& s.subrange(p, p + enc_str(t).len()) == enc_str(t)
            &&& s.subrange(p + enc_str(t).len(), p + enc_str(t).len() + 1) == seq!['\n']
            &&& base + enc_paths(ps.subrange(0, k + 1)).len() == p + enc_str(t).len() + 1
            &&& enc_paths(ps.subrange(0, k + 1)).len() <= enc_paths(ps).len()
        }),
{
    let t = ps[k]@;
    let u = enc_paths(ps);
    lemma_paths_split(ps, k);
    lemma_enc_paths_step(ps, k);
    lemma_paths_split(ps, k + 1);
    let x = enc_paths(ps.subrange(0, k)).len() as int;
    assert(u.subrange(x, x + enc_str(t).len() + 1) =~= enc_str(t) + seq!['\n']) by {
        assert(enc_paths(ps.subrange(0, k + 1)) == enc_paths(ps.subrange(0, k)) + enc_str(t)
            + seq!['\n']);
        assert(enc_paths(ps) == enc_paths(ps.subrange(0, k + 1)) + enc_paths_from(ps, k + 1));
        assert forall|m: int| 0 <= m < enc_str(t).len() + 1 implies u[x + m] == (enc_str(t)
            + seq!['\n'])[m] by {
            assert(enc_paths(ps.subrange(0, k + 1))[x + m] == (enc_paths(ps.subrange(0, k))
                + enc_str(t) + seq!['\n'])[x + m]);
        }
    }
    lemma_sub_sub(s, base, base + u.len(), u, x, x + enc_str(t).len() + 1);
    let p = base + x;
    lemma_sub_sub(
        s,
        p,
        p + enc_str(t).len() + 1,
        enc_str(t) + seq!['\n'],
        0,
        enc_str(t).len() as int,
    );
    assert((enc_str(t) + seq!['\n']).subrange(0, enc_str(t).len() as int) =~= enc_str(t));
    lemma_sub_sub(
        s,
        p,
        p + enc_str(t).len() + 1,
        enc_str(t) + seq!['\n'],
        enc_str(t).len() as int,
        (enc_str(t).len() + 1) as int,
    );
    assert((enc_str(t) + seq!['\n']).subrange(
        enc_str(t).len() as int,
        (enc_str(t).len() + 1) as int,
    ) =~= seq!['\n']);
}

impl Idb {
    /// Serialize this index into its document form.  Only a well-formed
    /// index is ever persisted: the id counter matches the file table
    /// and every posting points into it.
    pub fn encode(&self) -> (r: String)
        requires
            self.wf(),
        ensures
            r@ == enc_idb(*self),
    {
        let mut out = String::new();
        out.append("cur_id ");
        push_u64(&mut out, self.cur_id as u64);
        out.append("\n");
        out.append("project_root ");
        push_str_enc(&mut out, self.project_root.as_str());
        out.append("\n");
        out.append("idx_db ");
        push_u64(&mut out, self.idx_db.len() as u64);
        out.append("\n");
        let ghost head = out@;
        let mut k: usize = 0;
        while k < self.idx_db.len()
            invariant
                k <= self.idx_db@.len(),
                out@ == head + enc_paths(self.idx_db@.subrange(0, k as int)),
            decreases self.idx_db@.len() - k,
        {
            proof {
                lemma_enc_paths_step(self.idx_db@, k as int);
            }
            push_str_enc(&mut out, self.idx_db[k].as_str());
            out.append("\n");
            proof {
                reveal_strlit("\n");
                assert(out@ =~= head + enc_paths(self.idx_db@.subrange(0, k + 1)));
            }
            k = k + 1;
        }
        proof {
            assert(self.idx_db@.subrange(0, self.idx_db@.len() as int) =~= self.idx_db@);
        }
        out.append("str_db ");
        push_u64(&mut out, self.str_db.len() as u64);
        out.append("\n");
        let ghost head2 = out@;
        let mut j: usize = 0;
        while j < self.str_db.len()
            invariant
                j <= self.str_db@.len(),
                out@ == head2 + enc_postings(self.str_db@.subrange(0, j as int)),
            decreases self.str_db@.len() - j,
        {
            proof {
                lemma_enc_postings_step(self.str_db@, j as int);
            }
            push_str_enc(&mut out, self.str_db[j].key.as_str());
            out.append(" ");
            push_u64(&mut out, self.str_db[j].ids.len() as u64);
            let ghost mid = out@;
            let mut q: usize = 0;
            while q < self.str_db[j].ids.len()
                invariant
                    j < self.str_db@.len(),
                    q <= self.str_db@[j as int].ids@.len(),
                    out@ == mid + enc_ids(self.str_db@[j as int].ids@.subrange(0, q as int)),
                decreases self.str_db@[j as int].ids@.len() - q,
            {
                proof {
                    lemma_enc_ids_step(self.str_db@[j as int].ids@, q as int);
                }
                out.append(" ");
                push_u64(&mut out, self.str_db[j].ids[q] as u64);
                proof {
                    reveal_strlit(" ");
                    assert(out@ =~= mid + enc_ids(
                        self.str_db@[j as int].ids@.subrange(0, q + 1),
                    ));
                }
                q = q + 1;
            }
            out.append("\n");
            proof {
                reveal_strlit(" ");
                reveal_strlit("\n");
                let ids = self.str_db@[j as int].ids@;
                assert(ids.subrange(0, ids.len() as int) =~= ids);
                assert(out@ =~= head2 + enc_postings(self.str_db@.subrange(0, j + 1)));
            }
            j = j + 1;
        }
        proof {
            reveal_strlit("cur_id ");
            reveal_strlit("project_root ");
            reveal_strlit("idx_db ");
            reveal_strlit("str_db ");
            reveal_strlit("\n");
            assert(self.str_db@.subrange(0, self.str_db@.len() as int) =~= self.str_db@);
            assert(out@ =~= enc_idb(*self));
        }
        out
    }
}


/// Parse a document back into an index.  Every accepted document yields
/// a well-formed index; a document that `encode` produced for a
/// well-formed index of machine-representable size decodes to that very
/// index: the round trip.
#[verifier::rlimit(100)]
pub fn decode_idb(doc: &str) -> (r: Option<Idb>)
    ensures
        match r {
            Some(out) => out.wf(),
            None => true,
        },
        forall|idb: Idb| #[trigger] encodes(doc@, idb) ==> decodes_to(r, idb),
{
    let n = doc.unicode_len();
    proof {
        reveal_strlit("cur_id ");
        reveal_strlit("project_root ");
        reveal_strlit("idx_db ");
        reveal_strlit("str_db ");
        reveal_strlit("\n");
        reveal_strlit(" ");
        assert("\n"@ =~= seq!['\n']);
        assert(" "@ =~= seq![' ']);
    }
    let p1 = match expect_lit(doc, 0, "cur_id ") {
        Some(p) => p,
        None => {
            proof {
                assert forall|idb: Idb| #[trigger] encodes(doc@, idb) implies false by {
                    lemma_landmarks(doc@, idb);
                }
            }
            return None;
        },
    };
    let (c1, p2) = match parse_u64(doc, p1) {
        Some(p) => p,
        None => {
            proof {
                assert forall|idb: Idb| #[trigger] encodes(doc@, idb) implies false by {
                    lemma_landmarks(doc@, idb);
                    lemma_digit_run_end_bounds(doc@, p1 as int);
                }
            }
            return None;
        },
    };
    proof {
        assert forall|idb: Idb| #[trigger] encodes(doc@, idb) implies c1 == idb.cur_id && p2
            == "cur_id "@.len() + dec_digits(idb.cur_id as nat).len() by {
            lemma_landmarks(doc@, idb);
        }
    }
    let p3 = match expect_lit(doc, p2, "\n") {
        Some(p) => p,
        None => {
            proof {
                assert forall|idb: Idb| #[trigger] encodes(doc@, idb) implies false by {
                    lemma_landmarks(doc@, idb);
                }
            }
            return None;
        },
    };
    let p4 = match expect_lit(doc, p3, "project_root ") {
        Some(p) => p,
        None => {
            proof {
                assert forall|idb: Idb| #[trigger] encodes(doc@, idb) implies false by {
                    lemma_landmarks(doc@, idb);
                }
            }
            return None;
        },
    };
    let (root, p5) = match parse_str(doc, p4) {
        Some(p) => p,
        None => {
            proof {
                assert forall|idb: Idb| #[trigger] encodes(doc@, idb) implies false by {
                    lemma_landmarks(doc@, idb);
                    let t = idb.project_root@;
                    assert(t.len() <= u64::MAX && p4 + enc_str(t).len() <= doc@.len()
                        && doc@.subrange(p4 as int, p4 + enc_str(t).len()) == enc_str(t));
                    assert(enc_str_at(doc@, p4 as int));
                }
            }
            return None;
        },
    };
    proof {
        assert forall|idb: Idb| #[trigger] encodes(doc@, idb) implies root@ == idb.project_root@
            && p5 == p4 + enc_str(idb.project_root@).len() by {
            lemma_landmarks(doc@, idb);
            lemma_parse_str_of_enc(doc@, p4 as int, idb.project_root@);
        }
    }
    let p6 = match expect_lit(doc, p5, "\n") {
        Some(p) => p,
        None => {
            proof {
                assert forall|idb: Idb| #[trigger] encodes(doc@, idb) implies false by {
                    lemma_landmarks(doc@, idb);
                }
            }
            return None;
        },
    };
    let p7 = match expect_lit(doc, p6, "idx_db ") {
        Some(p) => p,
        None => {
            proof {
                assert forall|idb: Idb| #[trigger] encodes(doc@, idb) implies false by {
                    lemma_landmarks(doc@, idb);
                }
            }
            return None;
        },
    };
    let (np64, p8) = match parse_u64(doc, p7) {
        Some(p) => p,
        None => {
            proof {
                assert forall|idb: Idb| #[trigger] encodes(doc@, idb) implies false by {
                    lemma_landmarks(doc@, idb);
                    lemma_digit_run_end_bounds(doc@, p7 as int);
                }
            }
            return None;
        },
    };
    let p9 = match expect_lit(doc, p8, "\n") {
        Some(p) => p,
        None => {
            proof {
                assert forall|idb: Idb| #[trigger] encodes(doc@, idb) implies false by {
                    lemma_landmarks(doc@, idb);
                }
            }
            return None;
        },
    };
    proof {
        assert forall|idb: Idb| #[trigger] encodes(doc@, idb) implies np64 == idb.idx_db@.len()
            && p9 == pathpos(idb, 0) by {
            lemma_landmarks(doc@, idb);
        }
    }
    if c1 > u32::MAX as u64 {
        return None;
    }
    if np64 != c1 {
        return None;
    }
    let np = np64 as usize;
    let mut paths: Vec<String> = Vec::new();
    let mut pos: usize = p9;
    let mut k: usize = 0;
    while k < np
        invariant
            k <= np,
            paths@.len() == k,
            pos <= n,
            n == doc@.len(),
            forall|idb: Idb|
                #[trigger] encodes(doc@, idb) ==> (np == idb.idx_db@.len() && pos == pathpos(
                    idb,
                    k as int,
                ) && (forall|m: int| 0 <= m < k ==> paths@[m]@ == idb.idx_db@[m]@)),
        decreases np - k,
    {
        proof {
            reveal_strlit("\n");
            assert("\n"@ =~= seq!['\n']);
        }
        let (t, q1) = match parse_str(doc, pos) {
            Some(p) => p,
            None => {
                proof {
                    assert forall|idb: Idb| #[trigger] encodes(doc@, idb) implies false by {
                        lemma_path_entry(doc@, idb, k as int);
                        let tk = idb.idx_db@[k as int]@;
                        assert(tk.len() <= u64::MAX && pos + enc_str(tk).len() <= doc@.len()
                            && doc@.subrange(pos as int, pos + enc_str(tk).len()) == enc_str(tk));
                        assert(enc_str_at(doc@, pos as int));
                    }
                }
                return None;
            },
        };
        proof {
            assert forall|idb: Idb| #[trigger] encodes(doc@, idb) implies t@ == idb.idx_db@[
                k as int
            ]@ && q1 == pos + enc_str(idb.idx_db@[k as int]@).len() by {
                lemma_path_entry(doc@, idb, k as int);
                lemma_parse_str_of_enc(doc@, pos as int, idb.idx_db@[k as int]@);
            }
        }
        let q2 = match expect_lit(doc, q1, "\n") {
            Some(p) => p,
            None => {
                proof {
                    reveal_strlit("\n");
                    assert forall|idb: Idb| #[trigger] encodes(doc@, idb) implies false by {
                        lemma_path_entry(doc@, idb, k as int);
                        assert("\n"@ =~= seq!['\n']);
                    }
                }
                return None;
            },
        };
        proof {
            reveal_strlit("\n");
            assert forall|idb: Idb| #[trigger] encodes(doc@, idb) implies q2 == pathpos(
                idb,
                k + 1,
            ) by {
                lemma_path_entry(doc@, idb, k as int);
                assert("\n"@ =~= seq!['\n']);
            }
        }
        paths.push(t);
        pos = q2;
        k = k + 1;
    }
    proof {
        assert forall|idb: Idb| #[trigger] encodes(doc@, idb) implies pos == pathpos(
            idb,
            idb.idx_db@.len() as int,
        ) by {}
    }
    let s7 = match expect_lit(doc, pos, "str_db ") {
        Some(p) => p,
        None => {
            proof {
                assert forall|idb: Idb| #[trigger] encodes(doc@, idb) implies false by {
                    lemma_landmarks(doc@, idb);
                }
            }
            return None;
        },
    };
    let (ns64, s8) = match parse_u64(doc, s7) {
        Some(p) => p,
        None => {
            proof {
                assert forall|idb: Idb| #[trigger] encodes(doc@, idb) implies false by {
                    lemma_landmarks(doc@, idb);
                    lemma_digit_run_end_bounds(doc@, s7 as int);
                }
            }
            return None;
        },
    };
    let s9 = match expect_lit(doc, s8, "\n") {
        Some(p) => p,
        None => {
            proof {
                assert forall|idb: Idb| #[trigger] encodes(doc@, idb) implies false by {
                    lemma_landmarks(doc@, idb);
                }
            }
            return None;
        },
    };
    proof {
        assert forall|idb: Idb| #[trigger] encodes(doc@, idb) implies ns64 == idb.str_db@.len()
            && s9 == postpos(idb, 0) by {
            lemma_landmarks(doc@, idb);
        }
    }
    if ns64 > usize::MAX as u64 {
        return None;
    }
    let ns = ns64 as usize;
    let mut postings: Vec<Posting> = Vec::new();
    pos = s9;
    let mut j: usize = 0;
    while j < ns
        invariant
            j <= ns,
            postings@.len() == j,
            pos <= n,
            n == doc@.len(),
            forall|x: int, y: int|
                0 <= x < y < j ==> postings@[x].key@ != postings@[y].key@,
            forall|x: int| 0 <= x < j ==> postings@[x].ids@.no_duplicates(),
            forall|x: int, m: int|
                0 <= x < j && 0 <= m < postings@[x].ids@.len() ==> (postings@[x].ids@[m] as u64)
                    < c1,
            forall|idb: Idb|
                #[trigger] encodes(doc@, idb) ==> (ns == idb.str_db@.len() && c1 == idb.cur_id
                    && pos == postpos(idb, j as int) && (forall|x: int|
                    0 <= x < j ==> postings@[x].key@ == idb.str_db@[x].key@ && postings@[x].ids@
                        == idb.str_db@[x].ids@)),
        decreases ns - j,
    {
        proof {
            reveal_strlit("\n");
            reveal_strlit(" ");
            assert("\n"@ =~= seq!['\n']);
            assert(" "@ =~= seq![' ']);
        }
        let (key, w1) = match parse_str(doc, pos) {
            Some(p) => p,
            None => {
                proof {
                    assert forall|idb: Idb| #[trigger] encodes(doc@, idb) implies false by {
                        lemma_posting_entry(doc@, idb, j as int);
                        let tk = idb.str_db@[j as int].key@;
                        assert(tk.len() <= u64::MAX && pos + enc_str(tk).len() <= doc@.len()
                            && doc@.subrange(pos as int, pos + enc_str(tk).len()) == enc_str(tk));
                        assert(enc_str_at(doc@, pos as int));
                    }
                }
                return None;
            },
        };
        proof {
            assert forall|idb: Idb| #[trigger] encodes(doc@, idb) implies key@ == idb.str_db@[
                j as int
            ].key@ && w1 == pos + enc_str(idb.str_db@[j as int].key@).len() by {
                lemma_posting_entry(doc@, idb, j as int);
                lemma_parse_str_of_enc(doc@, pos as int, idb.str_db@[j as int].key@);
            }
        }
        let mut x: usize = 0;
        while x < j
            invariant
                x <= j,
                postings@.len() == j,
                forall|m: int| 0 <= m < x ==> postings@[m].key@ != key@,
                forall|idb: Idb|
                    #[trigger] encodes(doc@, idb) ==> (j < idb.str_db@.len() && key@
                        == idb.str_db@[j as int].key@ && (forall|y: int|
                        0 <= y < j ==> postings@[y].key@ == idb.str_db@[y].key@)),
            decreases j - x,
        {
            if postings[x].key == key {
                proof {
                    assert forall|idb: Idb| #[trigger] encodes(doc@, idb) implies false by {
                        assert(idb.str_db@[x as int].key@ == idb.str_db@[j as int].key@);
                    }
                }
                return None;
            }
            x = x + 1;
        }
        let w2 = match expect_lit(doc, w1, " ") {
            Some(p) => p,
            None => {
                proof {
                    reveal_strlit(" ");
                    assert forall|idb: Idb| #[trigger] encodes(doc@, idb) implies false by {
                        lemma_posting_entry(doc@, idb, j as int);
                        assert(" "@ =~= seq![' ']);
                    }
                }
                return None;
            },
        };
        let (ic64, w3) = match parse_u64(doc, w2) {
            Some(p) => p,
            None => {
                proof {
                    assert forall|idb: Idb| #[trigger] encodes(doc@, idb) implies false by {
                        lemma_posting_entry(doc@, idb, j as int);
                        lemma_digit_run_end_bounds(doc@, w2 as int);
                    }
                }
                return None;
            },
        };
        proof {
            reveal_strlit(" ");
            assert forall|idb: Idb| #[trigger] encodes(doc@, idb) implies ic64 == idb.str_db@[
                j as int
            ].ids@.len() && w3 == idpos(idb, j as int, 0) by {
                lemma_posting_entry(doc@, idb, j as int);
                assert(" "@ =~= seq![' ']);
            }
        }
        if ic64 > usize::MAX as u64 {
            return None;
        }
        let ic = ic64 as usize;
        let mut ids: Vec<u32> = Vec::new();
        let mut pos2: usize = w3;
        let mut q: usize = 0;
        while q < ic
            invariant
                q <= ic,
                ids@.len() == q,
                pos2 <= n,
                n == doc@.len(),
                ids@.no_duplicates(),
                forall|m: int| 0 <= m < q ==> (ids@[m] as u64) < c1,
                forall|idb: Idb|
                    #[trigger] encodes(doc@, idb) ==> (j < idb.str_db@.len() && ic
                        == idb.str_db@[j as int].ids@.len() && c1 == idb.cur_id && pos2 == idpos(
                        idb,
                        j as int,
                        q as int,
                    ) && ids@ == idb.str_db@[j as int].ids@.subrange(0, q as int)),
            decreases ic - q,
        {
            proof {
                reveal_strlit("\n");
                reveal_strlit(" ");
                assert("\n"@ =~= seq!['\n']);
                assert(" "@ =~= seq![' ']);
            }
            let v1 = match expect_lit(doc, pos2, " ") {
                Some(p) => p,
                None => {
                    proof {
                        reveal_strlit(" ");
                        assert forall|idb: Idb| #[trigger] encodes(doc@, idb) implies false by {
                            lemma_posting_id(doc@, idb, j as int, q as int);
                            assert(" "@ =~= seq![' ']);
                        }
                    }
                    return None;
                },
            };
            let (id64, v2) = match parse_u64(doc, v1) {
                Some(p) => p,
                None => {
                    proof {
                        assert forall|idb: Idb| #[trigger] encodes(doc@, idb) implies false by {
                            lemma_posting_id(doc@, idb, j as int, q as int);
                            lemma_digit_run_end_bounds(doc@, v1 as int);
                        }
                    }
                    return None;
                },
            };
            proof {
                reveal_strlit(" ");
                assert forall|idb: Idb| #[trigger] encodes(doc@, idb) implies id64
                    == idb.str_db@[j as int].ids@[q as int] && v2 == idpos(
                    idb,
                    j as int,
                    q + 1,
                ) by {
                    lemma_posting_id(doc@, idb, j as int, q as int);
                    assert(" "@ =~= seq![' ']);
                }
            }
            if id64 >= c1 {
                proof {
                    assert forall|idb: Idb| #[trigger] encodes(doc@, idb) implies false by {
                        assert(idb.str_db@[j as int].ids@[q as int] < idb.cur_id);
                    }
                }
                return None;
            }
            let idv = id64 as u32;
            if vec_contains_u32(&ids, idv) {
                proof {
                    assert forall|idb: Idb| #[trigger] encodes(doc@, idb) implies false by {
                        let ids0 = idb.str_db@[j as int].ids@;
                        let a = choose|a: int| 0 <= a < q && ids@[a] == idv;
                        assert(ids0.subrange(0, q as int)[a] == ids0[a]);
                        assert(ids0[a] == ids0[q as int]);
                    }
                }
                return None;
            }
            proof {
                assert forall|idb: Idb| #[trigger] encodes(doc@, idb) implies ids@.push(idv)
                    == idb.str_db@[j as int].ids@.subrange(0, q + 1) by {
                    assert(ids@.push(idv) =~= idb.str_db@[j as int].ids@.subrange(0, q + 1));
                }
            }
            ids.push(idv);
            pos2 = v2;
            q = q + 1;
        }
        let w4 = match expect_lit(doc, pos2, "\n") {
            Some(p) => p,
            None => {
                proof {
                    reveal_strlit("\n");
                    assert forall|idb: Idb| #[trigger] encodes(doc@, idb) implies false by {
                        lemma_posting_close(doc@, idb, j as int);
                        assert("\n"@ =~= seq!['\n']);
                        assert(idb.str_db@[j as int].ids@.subrange(
                            0,
                            idb.str_db@[j as int].ids@.len() as int,
                        ) =~= idb.str_db@[j as int].ids@);
                    }
                }
                return None;
            },
        };
        proof {
            reveal_strlit("\n");
            assert forall|idb: Idb| #[trigger] encodes(doc@, idb) implies w4 == postpos(
                idb,
                j + 1,
            ) && ids@ == idb.str_db@[j as int].ids@ by {
                lemma_posting_close(doc@, idb, j as int);
                assert("\n"@ =~= seq!['\n']);
                assert(idb.str_db@[j as int].ids@.subrange(
                    0,
                    idb.str_db@[j as int].ids@.len() as int,
                ) =~= idb.str_db@[j as int].ids@);
            }
        }
        postings.push(Posting { key, ids });
        pos = w4;
        j = j + 1;
    }
    if pos != n {
        proof {
            assert forall|idb: Idb| #[trigger] encodes(doc@, idb) implies false by {
                lemma_landmarks(doc@, idb);
            }
        }
        return None;
    }
    let out = Idb { cur_id: c1 as u32, project_root: root, idx_db: paths, str_db: postings };
    proof {
        assert(out.wf());
        assert forall|idb: Idb| #[trigger] encodes(doc@, idb) implies idb_like(out, idb) by {}
    }
    Some(out)
}

} // verus!
