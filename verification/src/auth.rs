use vstd::prelude::*;

verus! {

use vstd::string::StringExecFns;
use vstd::string::StrSliceExecFns;

/// Whether a site session is live, and for whom.
pub struct SiteAuthStatus {
    pub status: String,
    pub username: Option<String>,
    pub avatar: Option<String>,
}

/// A login session opened by scanning a code.
pub struct QRSession {
    pub url: String,
    pub qrcode_key: String,
}

/// One answer to polling a login session.
pub struct QRPollResult {
    pub status: i32,
    pub status_text: String,
    pub username: Option<String>,
}

/// The words for each polling status code.
pub open spec fn spec_qr_status_text(status: i32) -> Seq<char> {
    if status == 86101 {
        "Waiting for scan"@
    } else if status == 86090 {
        "Scanned, confirm on phone"@
    } else if status == 86038 {
        "QR code expired"@
    } else if status == 0 {
        "Login successful"@
    } else {
        "Unknown status"@
    }
}

/// Builds the polling answer for a status code: the code, its words, and
/// whoever was recognised.
pub fn qr_poll_result(status: i32, username: Option<String>) -> (r: QRPollResult)
    ensures
        r.status == status,
        r.status_text@ == spec_qr_status_text(status),
        r.username == username,
{
    let status_text = if status == 86101 {
        "Waiting for scan"
    } else if status == 86090 {
        "Scanned, confirm on phone"
    } else if status == 86038 {
        "QR code expired"
    } else if status == 0 {
        "Login successful"
    } else {
        "Unknown status"
    };
    QRPollResult { status, status_text: status_text.to_owned(), username }
}

/// Where the cookie file of the second site lives under a home directory.
pub fn xhs_cookies_path(home: &str) -> (r: String)
    ensures
        r@ == home@ + "/.config/vget/xhs_cookies.json"@,
{
    let mut p = home.to_owned();
    p.append("/.config/vget/xhs_cookies.json");
    p
}

/// The characters of a string with surrounding whitespace removed; they
/// depend on the characters alone.
pub uninterp spec fn trimmed(s: Seq<char>) -> Seq<char>;

/// Relies on `str::trim` from std: removes leading and trailing
/// whitespace; the result depends on the characters alone.
#[verifier::external_body]
fn trim_str<'a>(s: &'a str) -> (r: &'a str)
    ensures
        r@ == trimmed(s@),
{
    s.trim()
}

/// The first position of `c` in `s`, or the length when absent.
pub open spec fn first_idx(s: Seq<char>, c: char) -> int
    decreases s.len(),
{
    if s.len() == 0 {
        0
    } else if s[0] == c {
        0
    } else {
        1 + first_idx(s.drop_first(), c)
    }
}

/// A character preceded by no earlier occurrence is the first occurrence.
proof fn lemma_first_idx_at(s: Seq<char>, c: char, i: int)
    requires
        0 <= i < s.len(),
        s[i] == c,
        forall|j: int| 0 <= j < i ==> s[j] != c,
    ensures
        first_idx(s, c) == i,
    decreases i,
{
    if i > 0 {
        assert forall|j: int| 0 <= j < i - 1 implies s.drop_first()[j] != c by {
            assert(s.drop_first()[j] == s[j + 1]);
        }
        lemma_first_idx_at(s.drop_first(), c, i - 1);
    }
}

/// A string without the character puts the first occurrence at its end.
proof fn lemma_first_idx_absent(s: Seq<char>, c: char)
    requires
        forall|j: int| 0 <= j < s.len() ==> s[j] != c,
    ensures
        first_idx(s, c) == s.len(),
    decreases s.len(),
{
    if s.len() > 0 {
        assert forall|j: int| 0 <= j < s.drop_first().len() implies s.drop_first()[j] != c by {
            assert(s.drop_first()[j] == s[j + 1]);
        }
        lemma_first_idx_absent(s.drop_first(), c);
    }
}

/// Finds the first occurrence of `c` among the first `n` characters.
fn find_char(s: &str, c: char, n: usize) -> (r: usize)
    requires
        n == s@.len(),
    ensures
        r == first_idx(s@, c),
        r <= n,
{
    let mut i: usize = 0;
    while i < n
        invariant
            0 <= i <= n,
            n == s@.len(),
            forall|j: int| 0 <= j < i ==> s@[j] != c,
        decreases n - i,
    {
        if s.get_char(i) == c {
            proof {
                lemma_first_idx_at(s@, c, i as int);
            }
            return i;
        }
        i = i + 1;
    }
    proof {
        lemma_first_idx_absent(s@, c);
    }
    n
}

/// The three cookie keys are pairwise distinct.
proof fn lemma_cookie_keys_distinct()
    ensures
        "SESSDATA"@ != "bili_jct"@,
        "SESSDATA"@ != "DedeUserID"@,
        "bili_jct"@ != "DedeUserID"@,
{
    reveal_strlit("SESSDATA");
    reveal_strlit("bili_jct");
    reveal_strlit("DedeUserID");
    assert("SESSDATA"@.len() == 8);
    assert("bili_jct"@.len() == 8);
    assert("DedeUserID"@.len() == 10);
    assert("SESSDATA"@[0] == 'S');
    assert("bili_jct"@[0] == 'b');
}

/// Joining one more part appends it after a separator.
proof fn lemma_join_push(l: Seq<Seq<char>>, x: Seq<char>)
    ensures
        l.len() == 0 ==> join_sep(l.push(x)) == x,
        l.len() > 0 ==> join_sep(l.push(x)) == join_sep(l) + "; "@ + x,
    decreases l.len(),
{
    if l.len() == 0 {
        assert(l.push(x)[0] == x);
        assert(l.push(x).len() == 1);
    } else {
        assert(l.push(x)[0] == l[0]);
        assert(l.push(x).drop_first() =~= l.drop_first().push(x));
        lemma_join_push(l.drop_first(), x);
        if l.len() == 1 {
            assert(join_sep(l.push(x)) == l[0] + "; "@ + join_sep(l.drop_first().push(x)));
            assert(join_sep(l.drop_first().push(x)) == x);
        } else {
            assert(l[0] + "; "@ + (join_sep(l.drop_first()) + "; "@ + x) =~= (l[0] + "; "@
                + join_sep(l.drop_first())) + "; "@ + x);
        }
    }
}

/// The value that a run of set-cookie headers leaves under `key`: each
/// header's text before its first `;` is split at its first `=`, both
/// sides are trimmed, and the last assignment to `key` wins.
pub open spec fn cookie_of(hs: Seq<String>, key: Seq<char>) -> Option<Seq<char>>
    decreases hs.len(),
{
    if hs.len() == 0 {
        None
    } else {
        let h = hs.last()@;
        let kv = h.take(first_idx(h, ';'));
        let ei = first_idx(kv, '=');
        if ei < kv.len() && trimmed(kv.take(ei)) == key {
            Some(trimmed(kv.skip(ei + 1)))
        } else {
            cookie_of(hs.drop_last(), key)
        }
    }
}

/// One `key=value` part of the assembled cookie line, present only when
/// the headers left a non-empty value under `key`.
pub open spec fn cookie_part(hs: Seq<String>, key: Seq<char>) -> Option<Seq<char>> {
    match cookie_of(hs, key) {
        Some(v) => if v.len() > 0 {
            Some(key + "="@ + v)
        } else {
            None
        },
        None => None,
    }
}

/// Joins parts with `"; "` between them.
pub open spec fn join_sep(l: Seq<Seq<char>>) -> Seq<char>
    decreases l.len(),
{
    if l.len() == 0 {
        Seq::empty()
    } else if l.len() == 1 {
        l[0]
    } else {
        l[0] + "; "@ + join_sep(l.drop_first())
    }
}

/// The present parts, in the fixed order the cookie line uses.
pub open spec fn cookie_parts(hs: Seq<String>) -> Seq<Seq<char>> {
    (match cookie_part(hs, "SESSDATA"@) {
        Some(p) => seq![p],
        None => Seq::empty(),
    }) + (match cookie_part(hs, "bili_jct"@) {
        Some(p) => seq![p],
        None => Seq::empty(),
    }) + (match cookie_part(hs, "DedeUserID"@) {
        Some(p) => seq![p],
        None => Seq::empty(),
    })
}

/// Reads the session cookies out of a run of set-cookie headers and joins
/// the three that matter into one cookie line, in a fixed order, keeping
/// each key's last non-empty assignment.
pub fn extract_bilibili_cookies(set_cookie_headers: &Vec<String>) -> (r: String)
    ensures
        r@ == join_sep(cookie_parts(set_cookie_headers@)),
{
    let mut sessdata: Option<String> = None;
    let mut bili_jct: Option<String> = None;
    let mut dede_user_id: Option<String> = None;
    let n = set_cookie_headers.len();
    let mut i: usize = 0;
    while i < n
        invariant
            0 <= i <= n,
            n == set_cookie_headers@.len(),
            (match cookie_of(set_cookie_headers@.take(i as int), "SESSDATA"@) {
                Some(v) => sessdata matches Some(s) && s@ == v,
                None => sessdata is None,
            }),
            (match cookie_of(set_cookie_headers@.take(i as int), "bili_jct"@) {
                Some(v) => bili_jct matches Some(s) && s@ == v,
                None => bili_jct is None,
            }),
            (match cookie_of(set_cookie_headers@.take(i as int), "DedeUserID"@) {
                Some(v) => dede_user_id matches Some(s) && s@ == v,
                None => dede_user_id is None,
            }),
        decreases n - i,
    {
        let h = set_cookie_headers[i].as_str();
        let hn = h.unicode_len();
        let semi = find_char(h, ';', hn);
        let kv = h.substring_char(0, semi);
        let ghost kvs = kv@;
        let kvn = kv.unicode_len();
        let ei = find_char(kv, '=', kvn);
        proof {
            lemma_cookie_keys_distinct();
            assert(set_cookie_headers@.take(i as int + 1).last()
                == set_cookie_headers@[i as int]);
            assert(set_cookie_headers@.take(i as int + 1).drop_last() =~= set_cookie_headers@.take(
                i as int,
            ));
        }
        if ei < kvn {
            let key = trim_str(kv.substring_char(0, ei));
            let value = trim_str(kv.substring_char(ei + 1, kvn));
            proof {
                assert(kvs.take(ei as int) =~= kvs.subrange(0, ei as int));
                assert(kvs.skip(ei as int + 1) =~= kvs.subrange(ei as int + 1, kvs.len() as int));
            }
            if key.eq("SESSDATA") {
                sessdata = Some(value.to_owned());
            } else if key.eq("bili_jct") {
                bili_jct = Some(value.to_owned());
            } else if key.eq("DedeUserID") {
                dede_user_id = Some(value.to_owned());
            }
        }
        i = i + 1;
    }
    proof {
        assert(set_cookie_headers@.take(n as int) =~= set_cookie_headers@);
    }

    // Assemble the parts in their fixed order.
    let mut parts: Vec<String> = Vec::new();
    match sessdata {
        Some(v) => {
            if v.as_str().unicode_len() > 0 {
                let mut p = "SESSDATA=".to_owned();
                p.append(v.as_str());
                proof {
                    assert(p@ == "SESSDATA"@ + "="@ + v@) by {
                        reveal_strlit("SESSDATA=");
                        reveal_strlit("SESSDATA");
                        reveal_strlit("=");
                        assert("SESSDATA="@ =~= "SESSDATA"@ + "="@);
                    }
                }
                parts.push(p);
            }
        },
        None => {},
    }
    match bili_jct {
        Some(v) => {
            if v.as_str().unicode_len() > 0 {
                let mut p = "bili_jct=".to_owned();
                p.append(v.as_str());
                proof {
                    assert(p@ == "bili_jct"@ + "="@ + v@) by {
                        reveal_strlit("bili_jct=");
                        reveal_strlit("bili_jct");
                        reveal_strlit("=");
                        assert("bili_jct="@ =~= "bili_jct"@ + "="@);
                    }
                }
                parts.push(p);
            }
        },
        None => {},
    }
    match dede_user_id {
        Some(v) => {
            if v.as_str().unicode_len() > 0 {
                let mut p = "DedeUserID=".to_owned();
                p.append(v.as_str());
                proof {
                    assert(p@ == "DedeUserID"@ + "="@ + v@) by {
                        reveal_strlit("DedeUserID=");
                        reveal_strlit("DedeUserID");
                        reveal_strlit("=");
                        assert("DedeUserID="@ =~= "DedeUserID"@ + "="@);
                    }
                }
                parts.push(p);
            }
        },
        None => {},
    }
    proof {
        assert(parts@.map_values(|s: String| s@) =~= cookie_parts(set_cookie_headers@));
    }
    let mut out = String::new();
    let mut k: usize = 0;
    let ghost pv = parts@.map_values(|s: String| s@);
    proof {
        assert(pv.take(0) =~= Seq::<Seq<char>>::empty());
    }
    while k < parts.len()
        invariant
            0 <= k <= parts@.len(),
            pv == parts@.map_values(|s: String| s@),
            pv.len() == parts@.len(),
            out@ == join_sep(pv.take(k as int)),
        decreases parts@.len() - k,
    {
        proof {
            assert(pv[k as int] == parts@[k as int]@);
            assert(pv.take(k as int + 1) =~= pv.take(k as int).push(pv[k as int]));
            lemma_join_push(pv.take(k as int), pv[k as int]);
        }
        if k > 0 {
            out.append("; ");
        }
        out.append(parts[k].as_str());
        k = k + 1;
    }
    proof {
        assert(pv.take(parts@.len() as int) =~= pv);
    }
    out
}

} // verus!
