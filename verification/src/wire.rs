//! The wire protocol: length-prefixed frames and the request and
//! response payloads of the search server.

use vstd::prelude::*;

use vstd::arithmetic::power2::{lemma2_to64, lemma_pow2_adds, lemma_pow2_pos, pow2};

use crate::codec::{
    enc_str, enc_str_at, expect_lit, lemma_parse_str_of_enc, parse_str, push_str_enc,
};
use crate::idb::Idb;
use crate::persist::{enc_paths, lemma_enc_paths_step, lemma_paths_entry_in_region, lemma_paths_split};

verus! {

/// The value of a little-endian byte string.
pub open spec fn le_val(bs: Seq<u8>) -> nat
    decreases bs.len(),
{
    if bs.len() == 0 {
        0
    } else {
        (bs[0] + 256 * le_val(bs.drop_first())) as nat
    }
}

/// The largest frame body the receiver accepts: 256 MiB.
pub open spec fn max_frame() -> nat {
    0x1000_0000
}

proof fn lemma_le_val_bound(bs: Seq<u8>)
    ensures
        le_val(bs) < pow2(8 * bs.len()),
    decreases bs.len(),
{
    if bs.len() == 0 {
        lemma2_to64();
    } else {
        lemma_le_val_bound(bs.drop_first());
        lemma_pow2_adds(8, 8 * (bs.len() - 1) as nat);
        lemma2_to64();
        lemma_pow2_pos(8 * (bs.len() - 1) as nat);
        assert(le_val(bs) == bs[0] + 256 * le_val(bs.drop_first()));
        assert(256 * le_val(bs.drop_first()) <= 256 * (pow2(8 * (bs.len() - 1) as nat) - 1))
            by (nonlinear_arith)
            requires
                le_val(bs.drop_first()) <= pow2(8 * (bs.len() - 1) as nat) - 1,
        ;
    }
}

/// Read a little-endian `u64` from an 8-byte length prefix.
pub fn frame_len(prefix: &Vec<u8>) -> (r: u64)
    requires
        prefix@.len() == 8,
    ensures
        r == le_val(prefix@),
{
    let mut acc: u128 = 0;
    let mut j: usize = 8;
    while j > 0
        invariant
            prefix@.len() == 8,
            j <= 8,
            acc == le_val(prefix@.subrange(j as int, 8)),
            acc < 0x1_0000_0000_0000_0000u128,
        decreases j,
    {
        proof {
            assert(prefix@.subrange(j - 1, 8).drop_first() =~= prefix@.subrange(j as int, 8));
            lemma_le_val_bound(prefix@.subrange(j - 1, 8));
            lemma_pow2_adds(8 * (9 - j) as nat, 8 * (j - 1) as nat);
            lemma_pow2_pos(8 * (j - 1) as nat);
            lemma2_to64();
            assert(pow2(8 * (9 - j) as nat) <= pow2(8 * (9 - j) as nat) * pow2(
                8 * (j - 1) as nat,
            )) by (nonlinear_arith)
                requires
                    pow2(8 * (j - 1) as nat) >= 1,
            ;
        }
        acc = acc * 256 + (prefix[j - 1] as u128);
        j = j - 1;
    }
    proof {
        assert(prefix@.subrange(0, 8) =~= prefix@);
    }
    acc as u64
}

/// Write a `u64` as 8 little-endian bytes.
pub fn u64_to_le(x: u64) -> (r: Vec<u8>)
    ensures
        r@.len() == 8,
        le_val(r@) == x,
{
    let mut r: Vec<u8> = Vec::new();
    let mut cur: u64 = x;
    let mut i: usize = 0;
    proof {
        lemma2_to64();
        assert(le_val(Seq::<u8>::empty()) == 0);
        assert(pow2(0) == 1);
        assert(cur * pow2(0) == cur) by (nonlinear_arith)
            requires
                pow2(0) == 1,
        ;
    }
    while i < 8
        invariant
            i <= 8,
            r@.len() == i,
            x == le_val(r@) + cur * pow2(8 * i as nat),
            cur < pow2(8 * (8 - i) as nat),
        decreases 8 - i,
    {
        let ghost r0 = r@;
        let d = (cur % 256) as u8;
        r.push(d);
        let ghost cur0 = cur;
        cur = cur / 256;
        proof {
            lemma_le_val_push(r0, d);
            lemma_pow2_adds(8, 8 * i as nat);
            lemma2_to64();
            vstd::arithmetic::div_mod::lemma_fundamental_div_mod(cur0 as int, 256);
            assert(cur0 * pow2(8 * i as nat) == (d + 256 * (cur0 / 256)) * pow2(8 * i as nat));
            assert((d + 256 * (cur0 / 256)) * pow2(8 * i as nat) == d * pow2(8 * i as nat) + (256
                * (cur0 / 256)) * pow2(8 * i as nat)) by (nonlinear_arith);
            assert((256 * (cur0 / 256)) * pow2(8 * i as nat) == (cur0 / 256) * (256 * pow2(
                8 * i as nat,
            ))) by (nonlinear_arith);
            lemma_pow2_adds(8, 8 * (7 - i) as nat);
            lemma_pow2_pos(8 * (7 - i) as nat);
            assert(cur0 / 256 < pow2(8 * (7 - i) as nat)) by (nonlinear_arith)
                requires
                    cur0 < pow2(8 * (8 - i) as nat),
                    pow2(8 * (8 - i) as nat) == 256 * pow2(8 * (7 - i) as nat),
                    pow2(8 * (7 - i) as nat) >= 1,
            ;
        }
        i = i + 1;
    }
    proof {
        lemma2_to64();
        assert(pow2(0) == 1);
    }
    r
}

proof fn lemma_le_val_push(bs: Seq<u8>, d: u8)
    ensures
        le_val(bs.push(d)) == le_val(bs) + d * pow2(8 * bs.len()),
    decreases bs.len(),
{
    if bs.len() == 0 {
        lemma2_to64();
        assert(bs.push(d).drop_first() =~= Seq::<u8>::empty());
        assert(le_val(Seq::<u8>::empty()) == 0);
        assert(le_val(bs.push(d)) == d);
    } else {
        assert(bs.push(d).drop_first() =~= bs.drop_first().push(d));
        lemma_le_val_push(bs.drop_first(), d);
        lemma_pow2_adds(8, 8 * (bs.len() - 1) as nat);
        lemma2_to64();
        assert(256 * (le_val(bs.drop_first()) + d * pow2(8 * (bs.len() - 1) as nat)) == 256
            * le_val(bs.drop_first()) + d * (256 * pow2(8 * (bs.len() - 1) as nat)))
            by (nonlinear_arith);
    }
}

/// The receiver's frame gate: accept the declared body size only when
/// it is under 256 MiB.  A frame at or over the limit is rejected here,
/// before any buffer for the body exists.
pub fn check_frame_prefix(prefix: &Vec<u8>) -> (r: Option<usize>)
    requires
        prefix@.len() == 8,
    ensures
        match r {
            Some(sz) => le_val(prefix@) < max_frame() && sz == le_val(prefix@),
            None => le_val(prefix@) >= max_frame(),
        },
{
    let v = frame_len(prefix);
    if v >= 0x1000_0000 {
        None
    } else {
        Some(v as usize)
    }
}

/// A query from a client: which database to search and for what.
pub struct Request {
    pub dbname: String,
    pub needle: String,
}

/// The server's answer: the project root and the candidate paths, or an
/// error message.
pub struct Response {
    pub error: bool,
    pub message: String,
    pub files: Vec<String>,
}

impl Response {
    /// A successful response carrying the server's project root and the
    /// candidate paths.
    pub fn new(message: String, files: Vec<String>) -> (r: Self)
        ensures
            !r.error,
            r.message == message,
            r.files == files,
    {
        Response { error: false, message, files }
    }

    /// An error response with a human-readable description.
    pub fn err(message: &str) -> (r: Self)
        ensures
            r.error,
            r.message@ == message@,
            r.files@.len() == 0,
    {
        Response { error: true, message: message.to_owned(), files: Vec::new() }
    }
}

/// The textual form of a request: its two strings, length-prefixed.
pub open spec fn enc_request(q: Request) -> Seq<char> {
    enc_str(q.dbname@) + enc_str(q.needle@)
}

/// Requests that agree as values.
pub open spec fn request_like(a: Request, b: Request) -> bool {
    a.dbname@ == b.dbname@ && a.needle@ == b.needle@
}

impl Request {
    /// Serialize this request for the wire.
    pub fn encode(&self) -> (r: String)
        ensures
            r@ == enc_request(*self),
    {
        let mut out = String::new();
        push_str_enc(&mut out, self.dbname.as_str());
        push_str_enc(&mut out, self.needle.as_str());
        proof {
            assert(out@ =~= enc_request(*self));
        }
        out
    }

    /// Parse a request frame body.  Decoding an encoded request gives
    /// the request back.
    pub fn decode(doc: &str) -> (r: Option<Request>)
        ensures
            forall|q: Request|
                (doc@ == #[trigger] enc_request(q) && q.dbname@.len() <= u64::MAX
                    && q.needle@.len() <= u64::MAX) ==> (r is Some && request_like(
                    r.unwrap(),
                    q,
                )),
    {
        let n = doc.unicode_len();
        let (dbname, p1) = match parse_str(doc, 0) {
            Some(p) => p,
            None => {
                proof {
                    assert forall|q: Request|
                        doc@ == #[trigger] enc_request(q) && q.dbname@.len() <= u64::MAX
                            && q.needle@.len() <= u64::MAX implies false by {
                        lemma_take_mid_wire(doc@, Seq::empty(), enc_str(q.dbname@), enc_str(
                            q.needle@,
                        ));
                        assert(enc_str_at(doc@, 0));
                    }
                }
                return None;
            },
        };
        proof {
            assert forall|q: Request|
                doc@ == #[trigger] enc_request(q) && q.dbname@.len() <= u64::MAX
                    && q.needle@.len() <= u64::MAX implies dbname@ == q.dbname@ && p1 == enc_str(
                q.dbname@,
            ).len() by {
                lemma_take_mid_wire(doc@, Seq::empty(), enc_str(q.dbname@), enc_str(q.needle@));
                lemma_parse_str_of_enc(doc@, 0, q.dbname@);
            }
        }
        let (needle, p2) = match parse_str(doc, p1) {
            Some(p) => p,
            None => {
                proof {
                    assert forall|q: Request|
                        doc@ == #[trigger] enc_request(q) && q.dbname@.len() <= u64::MAX
                            && q.needle@.len() <= u64::MAX implies false by {
                        lemma_take_mid_wire(doc@, enc_str(q.dbname@), enc_str(q.needle@),
                            Seq::empty());
                        assert(enc_str_at(doc@, p1 as int));
                    }
                }
                return None;
            },
        };
        if p2 != n {
            proof {
                assert forall|q: Request|
                    doc@ == #[trigger] enc_request(q) && q.dbname@.len() <= u64::MAX
                        && q.needle@.len() <= u64::MAX implies false by {
                    lemma_take_mid_wire(doc@, enc_str(q.dbname@), enc_str(q.needle@),
                        Seq::empty());
                    lemma_parse_str_of_enc(doc@, p1 as int, q.needle@);
                }
            }
            return None;
        }
        proof {
            assert forall|q: Request|
                doc@ == #[trigger] enc_request(q) && q.dbname@.len() <= u64::MAX
                    && q.needle@.len() <= u64::MAX implies needle@ == q.needle@ by {
                lemma_take_mid_wire(doc@, enc_str(q.dbname@), enc_str(q.needle@), Seq::empty());
                lemma_parse_str_of_enc(doc@, p1 as int, q.needle@);
            }
        }
        Some(Request { dbname, needle })
    }
}

proof fn lemma_take_mid_wire(s: Seq<char>, pre: Seq<char>, mid: Seq<char>, post: Seq<char>)
    requires
        s == pre + mid + post,
    ensures
        s.len() == pre.len() + mid.len() + post.len(),
        s.subrange(pre.len() as int, (pre.len() + mid.len()) as int) == mid,
{
    assert(s.subrange(pre.len() as int, (pre.len() + mid.len()) as int) =~= mid);
}


/// The flag character of a response: `1` for an error, `0` otherwise.
pub open spec fn flag_of(r: Response) -> Seq<char> {
    if r.error {
        seq!['1']
    } else {
        seq!['0']
    }
}

/// The textual form of a response: the flag, the message, and the
/// candidate paths, one per line.
pub open spec fn enc_response(r: Response) -> Seq<char> {
    enc_str(flag_of(r)) + enc_str(r.message@) + enc_paths(r.files@)
}

/// Responses that agree as values.
pub open spec fn response_like(a: Response, b: Response) -> bool {
    &&& a.error == b.error
    &&& a.message@ == b.message@
    &&& a.files@.len() == b.files@.len()
    &&& forall|k: int| 0 <= k < a.files@.len() ==> a.files@[k]@ == b.files@[k]@
}

impl Response {
    /// Serialize this response for the wire.
    pub fn encode(&self) -> (r: String)
        ensures
            r@ == enc_response(*self),
    {
        let mut out = String::new();
        if self.error {
            push_str_enc(&mut out, "1");
        } else {
            push_str_enc(&mut out, "0");
        }
        push_str_enc(&mut out, self.message.as_str());
        let ghost head = out@;
        let mut k: usize = 0;
        while k < self.files.len()
            invariant
                k <= self.files@.len(),
                out@ == head + enc_paths(self.files@.subrange(0, k as int)),
            decreases self.files@.len() - k,
        {
            proof {
                lemma_enc_paths_step(self.files@, k as int);
            }
            push_str_enc(&mut out, self.files[k].as_str());
            out.append("\n");
            proof {
                reveal_strlit("\n");
                assert(out@ =~= head + enc_paths(self.files@.subrange(0, k + 1)));
            }
            k = k + 1;
        }
        proof {
            reveal_strlit("1");
            reveal_strlit("0");
            assert(self.files@.subrange(0, self.files@.len() as int) =~= self.files@);
            assert(out@ =~= enc_response(*self));
        }
        out
    }

    /// Parse a response frame body.  Decoding an encoded response gives
    /// the response back.
    #[verifier::rlimit(100)]
    pub fn decode(doc: &str) -> (r: Option<Response>)
        ensures
            forall|q: Response|
                (doc@ == #[trigger] enc_response(q) && q.message@.len() <= u64::MAX) ==> (r is Some
                    && response_like(r.unwrap(), q)),
    {
        let n = doc.unicode_len();
        proof {
            reveal_strlit("1");
            reveal_strlit("0");
        }
        let (flag, p1) = match parse_str(doc, 0) {
            Some(p) => p,
            None => {
                proof {
                    assert forall|q: Response|
                        doc@ == #[trigger] enc_response(q) && q.message@.len()
                            <= u64::MAX implies false by {
                        lemma_resp_landmarks(doc@, q);
                        assert(enc_str_at(doc@, 0));
                    }
                }
                return None;
            },
        };
        proof {
            assert forall|q: Response|
                doc@ == #[trigger] enc_response(q) && q.message@.len() <= u64::MAX implies flag@
                == flag_of(q) && p1 == enc_str(flag_of(q)).len() by {
                lemma_resp_landmarks(doc@, q);
                lemma_parse_str_of_enc(doc@, 0, flag_of(q));
            }
        }
        let (message, p2) = match parse_str(doc, p1) {
            Some(p) => p,
            None => {
                proof {
                    assert forall|q: Response|
                        doc@ == #[trigger] enc_response(q) && q.message@.len()
                            <= u64::MAX implies false by {
                        lemma_resp_landmarks(doc@, q);
                        assert(enc_str_at(doc@, p1 as int));
                    }
                }
                return None;
            },
        };
        proof {
            assert forall|q: Response|
                doc@ == #[trigger] enc_response(q) && q.message@.len() <= u64::MAX implies message@
                == q.message@ && p2 == enc_str(flag_of(q)).len() + enc_str(q.message@).len() by {
                lemma_resp_landmarks(doc@, q);
                lemma_parse_str_of_enc(doc@, p1 as int, q.message@);
            }
        }
        let one = "1".to_owned();
        let zero = "0".to_owned();
        let error: bool;
        if flag == one {
            error = true;
        } else if flag == zero {
            error = false;
        } else {
            proof {
                assert forall|q: Response|
                    doc@ == #[trigger] enc_response(q) && q.message@.len()
                        <= u64::MAX implies false by {
                    assert("1"@ =~= seq!['1']);
                    assert("0"@ =~= seq!['0']);
                }
            }
            return None;
        }
        proof {
            assert forall|q: Response|
                doc@ == #[trigger] enc_response(q) && q.message@.len() <= u64::MAX implies error
                == q.error by {
                assert("1"@ =~= seq!['1']);
                assert("0"@ =~= seq!['0']);
            }
        }
        let mut files: Vec<String> = Vec::new();
        let mut pos: usize = p2;
        while pos < n
            invariant
                pos <= n,
                n == doc@.len(),
                forall|q: Response|
                    (doc@ == #[trigger] enc_response(q) && q.message@.len() <= u64::MAX) ==> (
                    files@.len() <= q.files@.len() && pos == enc_str(flag_of(q)).len() + enc_str(
                        q.message@,
                    ).len() + enc_paths(q.files@.subrange(0, files@.len() as int)).len() && (
                    forall|m: int| 0 <= m < files@.len() ==> files@[m]@ == q.files@[m]@)),
            decreases n - pos,
        {
            proof {
                reveal_strlit("\n");
                assert("\n"@ =~= seq!['\n']);
                assert forall|q: Response|
                    doc@ == #[trigger] enc_response(q) && q.message@.len() <= u64::MAX implies
                    files@.len() < q.files@.len() by {
                    lemma_resp_landmarks(doc@, q);
                    if files@.len() == q.files@.len() {
                        assert(q.files@.subrange(0, q.files@.len() as int) =~= q.files@);
                    }
                }
            }
            let (t, q1) = match parse_str(doc, pos) {
                Some(p) => p,
                None => {
                    proof {
                        assert forall|q: Response|
                            doc@ == #[trigger] enc_response(q) && q.message@.len()
                                <= u64::MAX implies false by {
                            lemma_resp_landmarks(doc@, q);
                            lemma_paths_entry_in_region(
                                doc@,
                                (enc_str(flag_of(q)).len() + enc_str(q.message@).len()) as int,
                                q.files@,
                                files@.len() as int,
                            );
                            let tk = q.files@[files@.len() as int]@;
                            assert(tk.len() <= u64::MAX && pos + enc_str(tk).len() <= doc@.len()
                                && doc@.subrange(pos as int, pos + enc_str(tk).len()) == enc_str(
                                tk,
                            ));
                            assert(enc_str_at(doc@, pos as int));
                        }
                    }
                    return None;
                },
            };
            proof {
                assert forall|q: Response|
                    doc@ == #[trigger] enc_response(q) && q.message@.len() <= u64::MAX implies t@
                    == q.files@[files@.len() as int]@ && q1 == pos + enc_str(
                    q.files@[files@.len() as int]@,
                ).len() by {
                    lemma_resp_landmarks(doc@, q);
                    lemma_paths_entry_in_region(
                        doc@,
                        (enc_str(flag_of(q)).len() + enc_str(q.message@).len()) as int,
                        q.files@,
                        files@.len() as int,
                    );
                    lemma_parse_str_of_enc(doc@, pos as int, q.files@[files@.len() as int]@);
                }
            }
            let q2 = match expect_lit(doc, q1, "\n") {
                Some(p) => p,
                None => {
                    proof {
                        reveal_strlit("\n");
                        assert forall|q: Response|
                            doc@ == #[trigger] enc_response(q) && q.message@.len()
                                <= u64::MAX implies false by {
                            lemma_resp_landmarks(doc@, q);
                            lemma_paths_entry_in_region(
                                doc@,
                                (enc_str(flag_of(q)).len() + enc_str(q.message@).len()) as int,
                                q.files@,
                                files@.len() as int,
                            );
                            assert("\n"@ =~= seq!['\n']);
                        }
                    }
                    return None;
                },
            };
            proof {
                reveal_strlit("\n");
                assert forall|q: Response|
                    doc@ == #[trigger] enc_response(q) && q.message@.len() <= u64::MAX implies q2
                    == enc_str(flag_of(q)).len() + enc_str(q.message@).len() + enc_paths(
                    q.files@.subrange(0, (files@.len() + 1) as int),
                ).len() && q2 <= doc@.len() by {
                    lemma_resp_landmarks(doc@, q);
                    lemma_paths_entry_in_region(
                        doc@,
                        (enc_str(flag_of(q)).len() + enc_str(q.message@).len()) as int,
                        q.files@,
                        files@.len() as int,
                    );
                    assert("\n"@ =~= seq!['\n']);
                    lemma_paths_split(q.files@, (files@.len() + 1) as int);
                }
            }
            files.push(t);
            pos = q2;
        }
        proof {
            assert forall|q: Response|
                doc@ == #[trigger] enc_response(q) && q.message@.len() <= u64::MAX implies
                files@.len() == q.files@.len() by {
                lemma_resp_landmarks(doc@, q);
                if files@.len() < q.files@.len() {
                    lemma_paths_entry_in_region(
                        doc@,
                        (enc_str(flag_of(q)).len() + enc_str(q.message@).len()) as int,
                        q.files@,
                        files@.len() as int,
                    );
                }
            }
        }
        Some(Response { error, message, files })
    }
}

/// The regions of an encoded response: the flag, the message, and the
/// path list filling the rest of the document.
proof fn lemma_resp_landmarks(s: Seq<char>, q: Response)
    requires
        s == enc_response(q),
        s.len() <= u64::MAX,
    ensures
        flag_of(q).len() == 1,
        q.message@.len() <= u64::MAX,
        enc_str(flag_of(q)).len() + enc_str(q.message@).len() + enc_paths(q.files@).len()
            == s.len(),
        s.subrange(0, enc_str(flag_of(q)).len() as int) == enc_str(flag_of(q)),
        s.subrange(
            enc_str(flag_of(q)).len() as int,
            (enc_str(flag_of(q)).len() + enc_str(q.message@).len()) as int,
        ) == enc_str(q.message@),
        s.subrange(
            (enc_str(flag_of(q)).len() + enc_str(q.message@).len()) as int,
            s.len() as int,
        ) == enc_paths(q.files@),
{
    let f = enc_str(flag_of(q));
    let m = enc_str(q.message@);
    let ps = enc_paths(q.files@);
    assert(s.subrange(0, f.len() as int) =~= f);
    assert(s.subrange(f.len() as int, (f.len() + m.len()) as int) =~= m);
    assert(s.subrange((f.len() + m.len()) as int, s.len() as int) =~= ps);
}

/// The per-connection decision of a database worker: reject a needle of
/// fewer than 3 code points, otherwise answer with the project root and
/// the candidate paths.
pub fn server_reply(db: &Idb, needle: &str) -> (r: Response)
    requires
        db.wf(),
    ensures
        needle@.len() < 3 ==> (r.error && r.files@.len() == 0),
        needle@.len() >= 3 ==> {
            &&& !r.error
            &&& r.message@ == db.project_root@
            &&& exists|ids: Seq<u32>|
                {
                    &&& ids.no_duplicates()
                    &&& (forall|id: u32|
                        #[trigger] ids.contains(id) <==> db.is_candidate(needle@, id))
                    &&& r.files@.len() == ids.len()
                    &&& (forall|k: int|
                        0 <= k < ids.len() ==> ids[k] < db.idx_db@.len() && r.files@[k]@
                            == db.idx_db@[ids[k] as int]@)
                }
        },
{
    if needle.unicode_len() < 3 {
        return Response::err("Input to short");
    }
    let found = db.find_file_names(needle);
    Response::new(db.project_root.clone(), found)
}

} // verus!
