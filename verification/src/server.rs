//! Request routing and replies of the print server and the voting machine.
use vstd::prelude::*;
use crate::strings::{
    chars_of, lines, split_lines, str_eq, string_from_chars, strings_view, trim, trim_chars,
    trim_end, trim_end_chars, push_str,
};
use crate::vote::Outcome;

verus! {

/// The HTTP methods that the servers tell apart.
#[derive(PartialEq, Eq, Structural, Clone, Copy, Debug)]
pub enum Method {
    Get,
    Post,
    Other,
}

/// What the print server does with a request.
#[derive(PartialEq, Eq, Structural, Clone, Copy, Debug)]
pub enum Route {
    /// `POST /print`: print the body as text.
    Print,
    /// `GET /food`: print the daily menu.
    Food,
    /// Anything else.
    NotFound,
}

/// Route a request of the print server.
pub fn route(method: Method, url: &str) -> (r: Route)
    ensures
        r == (if method == Method::Post && url@ == "/print"@ {
            Route::Print
        } else if method == Method::Get && url@ == "/food"@ {
            Route::Food
        } else {
            Route::NotFound
        }),
{
    if method == Method::Post && str_eq(url, "/print") {
        Route::Print
    } else if method == Method::Get && str_eq(url, "/food") {
        Route::Food
    } else {
        Route::NotFound
    }
}

/// The status code of the print server's reply: `404` for an unknown route,
/// else `200` where the job was printed and `500` where it failed.
pub fn reply_status(route: Route, printed: bool) -> (status: u16)
    ensures
        status == (if route == Route::NotFound {
            404u16
        } else if printed {
            200u16
        } else {
            500u16
        }),
{
    match route {
        Route::NotFound => 404,
        _ => if printed {
            200
        } else {
            500
        },
    }
}

/// The body of the print server's reply: `not found` for an unknown route,
/// `printed` where the job was printed, else what failed and why.
pub fn reply_body(route: Route, error: Option<&str>) -> (body: String)
    ensures
        body@ == (if route == Route::NotFound {
            "not found\n"@
        } else {
            match error {
                None => "printed\n"@,
                Some(e) => (if route == Route::Food {
                    "food"@
                } else {
                    "print"@
                }) + " failed: "@ + e@ + "\n"@,
            }
        }),
{
    let mut body = String::new();
    match route {
        Route::NotFound => push_str(&mut body, "not found\n"),
        _ => match error {
            None => push_str(&mut body, "printed\n"),
            Some(e) => {
                if route == Route::Food {
                    push_str(&mut body, "food");
                } else {
                    push_str(&mut body, "print");
                }
                push_str(&mut body, " failed: ");
                push_str(&mut body, e);
                push_str(&mut body, "\n");
            },
        },
    }
    body
}

/// `c` with ASCII upper-case letters made lower-case.
pub open spec fn ascii_lower(c: char) -> char {
    if 'A' <= c && c <= 'Z' {
        (((c as u8) + 32) as u8) as char
    } else {
        c
    }
}

/// Whether `a` and `b` are equal when ASCII letters are compared without
/// regard to case.
pub open spec fn eq_ignore_ascii_case(a: Seq<char>, b: Seq<char>) -> bool {
    a.len() == b.len() && forall|i: int| 0 <= i < a.len() ==> ascii_lower(#[trigger] a[i]) == ascii_lower(b[i])
}

fn lower_char(c: char) -> (l: char)
    ensures
        l == ascii_lower(c),
{
    if 'A' <= c && c <= 'Z' {
        ((c as u8) + 32) as char
    } else {
        c
    }
}

/// Whether `a` and `b` are equal up to the case of ASCII letters.
pub fn str_eq_ignore_ascii_case(a: &str, b: &str) -> (eq: bool)
    ensures
        eq == eq_ignore_ascii_case(a@, b@),
{
    let ac = chars_of(a);
    let bc = chars_of(b);
    if ac.len() != bc.len() {
        return false;
    }
    let mut i: usize = 0;
    while i < ac.len()
        invariant
            i <= ac.len(),
            ac.len() == bc.len(),
            ac@ == a@,
            bc@ == b@,
            forall|j: int| 0 <= j < i ==> ascii_lower(#[trigger] ac@[j]) == ascii_lower(bc@[j]),
        decreases ac.len() - i,
    {
        if lower_char(ac[i]) != lower_char(bc[i]) {
            return false;
        }
        i = i + 1;
    }
    true
}

/// The index of the first header of `headers` named `name`, case aside.
pub open spec fn first_header(headers: Seq<(String, String)>, name: Seq<char>) -> Option<int>
    decreases headers.len(),
{
    if headers.len() == 0 {
        None
    } else if eq_ignore_ascii_case(headers[0].0@, name) {
        Some(0)
    } else {
        match first_header(headers.drop_first(), name) {
            Some(i) => Some(i + 1),
            None => None,
        }
    }
}

/// The value of the first header of `headers` (name, value pairs) whose name
/// is `name` when case is ignored, as `X-Real-IP` is looked up.
pub fn header_value(headers: &Vec<(String, String)>, name: &str) -> (v: Option<String>)
    ensures
        match first_header(headers@, name@) {
            Some(i) => v is Some && v->Some_0@ == headers@[i].1@,
            None => v is None,
        },
{
    let mut i: usize = 0;
    assert(headers@.skip(0) =~= headers@);
    while i < headers.len()
        invariant
            i <= headers.len(),
            first_header(headers@, name@) == match first_header(headers@.skip(i as int), name@) {
                Some(k) => Some(k + i),
                None => None,
            },
        decreases headers.len() - i,
    {
        assert(headers@.skip(i as int)[0] == headers@[i as int]);
        assert(headers@.skip(i as int).drop_first() =~= headers@.skip(i + 1));
        if str_eq_ignore_ascii_case(headers[i].0.as_str(), name) {
            return Some(headers[i].1.clone());
        }
        i = i + 1;
    }
    None
}

/// Who sent a print job: the `X-Real-IP` header set by the proxy where there
/// is one, else the peer address, else `unknown`.
pub fn sender_label(real_ip: Option<&str>, remote: Option<&str>) -> (s: String)
    ensures
        s@ == (match real_ip {
            Some(h) => h@,
            None => match remote {
                Some(a) => a@,
                None => "unknown"@,
            },
        }),
{
    let mut s = String::new();
    match real_ip {
        Some(h) => push_str(&mut s, h),
        None => match remote {
            Some(a) => push_str(&mut s, a),
            None => push_str(&mut s, "unknown"),
        },
    }
    s
}

/// What the voting machine does with a request.
#[derive(PartialEq, Eq, Structural, Clone, Copy, Debug)]
pub enum VoteRoute {
    /// `GET /vote`: show the form.
    Form,
    /// `POST /vote`: print the submitted vote.
    Vote,
    /// Anything else.
    NotFound,
}

/// Route a request of the voting machine.
pub fn vote_route(method: Method, url: &str) -> (r: VoteRoute)
    ensures
        r == (if url@ == "/vote"@ && method == Method::Get {
            VoteRoute::Form
        } else if url@ == "/vote"@ && method == Method::Post {
            VoteRoute::Vote
        } else {
            VoteRoute::NotFound
        }),
{
    if method == Method::Get && str_eq(url, "/vote") {
        VoteRoute::Form
    } else if method == Method::Post && str_eq(url, "/vote") {
        VoteRoute::Vote
    } else {
        VoteRoute::NotFound
    }
}

/// The pages of the voting machine.
#[derive(PartialEq, Eq, Structural, Clone, Copy, Debug)]
pub enum Page {
    Form,
    Thanks,
    Empty,
    Error,
}

/// The page and status code that answer a submitted vote: thanks where it
/// was printed, a `400` where it held no suggestion, a `500` where printing
/// failed (`None`).
pub fn vote_reply(outcome: Option<Outcome>) -> (reply: (Page, u16))
    ensures
        reply == (match outcome {
            Some(Outcome::Printed) => (Page::Thanks, 200u16),
            Some(Outcome::Empty) => (Page::Empty, 400u16),
            None => (Page::Error, 500u16),
        }),
{
    match outcome {
        Some(Outcome::Printed) => (Page::Thanks, 200),
        Some(Outcome::Empty) => (Page::Empty, 400),
        None => (Page::Error, 500),
    }
}

/// Why a banner job was refused.
#[derive(PartialEq, Eq, Structural, Clone, Copy, Debug)]
pub enum BannerError {
    /// The body held no line with anything but whitespace.
    NoLines,
}

impl BannerError {
    /// What the refusal says.
    pub fn message(&self) -> (m: String)
        ensures
            m@ == "banner requires at least one non-empty line"@,
    {
        let mut m = String::new();
        match self {
            BannerError::NoLines => push_str(&mut m, "banner requires at least one non-empty line"),
        }
        m
    }
}

/// The lines of `ls` without trailing whitespace, leaving out blank ones.
pub open spec fn banner_kept(ls: Seq<Seq<char>>) -> Seq<Seq<char>>
    decreases ls.len(),
{
    if ls.len() == 0 {
        Seq::empty()
    } else {
        let rest = banner_kept(ls.drop_last());
        if trim(ls.last()).len() == 0 {
            rest
        } else {
            rest.push(trim_end(ls.last()))
        }
    }
}

/// The lines of a banner: one per non-blank line of the body, without
/// trailing whitespace; refused where there is none.
pub fn banner_lines(body: &str) -> (r: Result<Vec<String>, BannerError>)
    ensures
        banner_kept(lines(body@)).len() == 0 ==> r == Err::<Vec<String>, BannerError>(BannerError::NoLines),
        banner_kept(lines(body@)).len() > 0 ==> r is Ok && strings_view(r->Ok_0@) == banner_kept(lines(body@)),
{
    let chars = chars_of(body);
    let ls = split_lines(chars.as_slice());
    let ghost lv = ls@.map_values(|l: Vec<char>| l@);
    let mut out: Vec<String> = Vec::new();
    let mut i: usize = 0;
    while i < ls.len()
        invariant
            i <= ls.len(),
            lv == ls@.map_values(|l: Vec<char>| l@),
            lv == lines(body@),
            strings_view(out@) == banner_kept(lv.take(i as int)),
        decreases ls.len() - i,
    {
        assert(lv.take(i + 1).drop_last() =~= lv.take(i as int));
        assert(lv.take(i + 1).last() == ls@[i as int]@);
        let t = trim_chars(ls[i].as_slice());
        if t.len() > 0 {
            let kept = string_from_chars(trim_end_chars(ls[i].as_slice()).as_slice());
            let ghost before = out@;
            out.push(kept);
            assert(strings_view(out@) =~= strings_view(before).push(kept@));
        }
        i = i + 1;
    }
    assert(lv.take(ls.len() as int) =~= lv);
    if out.len() == 0 {
        Err(BannerError::NoLines)
    } else {
        Ok(out)
    }
}

/// Whether an HTTP status code reports success (the `2xx` class).
pub fn is_success_status(status: i32) -> (ok: bool)
    ensures
        ok == (200 <= status <= 299),
{
    200 <= status && status <= 299
}

/// Choosing banner lines works line by line: what is kept of two runs of
/// lines, one after the other, is what is kept of each; of one line, its
/// text without trailing whitespace is kept unless it is blank.
pub proof fn law_banner_kept(a: Seq<Seq<char>>, b: Seq<Seq<char>>, x: Seq<char>)
    ensures
        banner_kept(a + b) == banner_kept(a) + banner_kept(b),
        banner_kept(seq![x]) == (if trim(x).len() == 0 {
            Seq::<Seq<char>>::empty()
        } else {
            seq![trim_end(x)]
        }),
    decreases b.len(),
{
    assert(seq![x].drop_last() =~= Seq::<Seq<char>>::empty());
    assert(banner_kept(seq![x].drop_last()) == Seq::<Seq<char>>::empty());
    assert(seq![x].last() == x);
    assert(Seq::<Seq<char>>::empty().push(trim_end(x)) =~= seq![trim_end(x)]);
    if b.len() == 0 {
        assert(a + b =~= a);
        assert(banner_kept(a) + banner_kept(b) =~= banner_kept(a));
    } else {
        law_banner_kept(a, b.drop_last(), x);
        assert((a + b).drop_last() =~= a + b.drop_last());
        assert((a + b).last() == b.last());
        if trim(b.last()).len() != 0 {
            assert(banner_kept(a) + banner_kept(b.drop_last()).push(trim_end(b.last())) =~= (
            banner_kept(a) + banner_kept(b.drop_last())).push(trim_end(b.last())));
        }
    }
}

/// The first header matching `name` is one whose name equals `name` case
/// aside, and no header before it matches; where none is found, no header
/// matches.
pub proof fn law_first_header(headers: Seq<(String, String)>, name: Seq<char>)
    ensures
        first_header(headers, name) matches Some(i) ==> 0 <= i < headers.len() && eq_ignore_ascii_case(
            headers[i].0@,
            name,
        ) && forall|j: int| 0 <= j < i ==> !eq_ignore_ascii_case(#[trigger] headers[j].0@, name),
        first_header(headers, name) is None ==> forall|j: int|
            0 <= j < headers.len() ==> !eq_ignore_ascii_case(#[trigger] headers[j].0@, name),
    decreases headers.len(),
{
    if headers.len() > 0 {
        let r = headers.drop_first();
        law_first_header(r, name);
        assert forall|j: int| 0 <= j < r.len() implies #[trigger] r[j] == headers[j + 1] by {}
        if !eq_ignore_ascii_case(headers[0].0@, name) {
            if first_header(r, name) is Some {
                let i = first_header(r, name)->Some_0;
                assert forall|j: int| 0 <= j < i + 1 implies !eq_ignore_ascii_case(
                    #[trigger] headers[j].0@,
                    name,
                ) by {
                    if j > 0 {
                        assert(headers[j] == r[j - 1]);
                    }
                }
            } else {
                assert forall|j: int| 0 <= j < headers.len() implies !eq_ignore_ascii_case(
                    #[trigger] headers[j].0@,
                    name,
                ) by {
                    if j > 0 {
                        assert(headers[j] == r[j - 1]);
                    }
                }
            }
        }
    }
}

} // verus!
