//! Small operations on text: equality, trimming white space, and the last
//! component of a slash-separated path.

use vstd::prelude::*;

verus! {

/// The characters that `char::is_whitespace` accepts (Unicode White_Space).
pub open spec fn is_space(c: char) -> bool {
    ('\t' <= c && c <= '\r') || c == ' ' || c == '\u{85}' || c == '\u{a0}' || c == '\u{1680}'
        || ('\u{2000}' <= c && c <= '\u{200a}') || c == '\u{2028}' || c == '\u{2029}' || c
        == '\u{202f}' || c == '\u{205f}' || c == '\u{3000}'
}

pub fn space(c: char) -> (r: bool)
    ensures
        r == is_space(c),
{
    ('\t' <= c && c <= '\r') || c == ' ' || c == '\u{85}' || c == '\u{a0}' || c == '\u{1680}'
        || ('\u{2000}' <= c && c <= '\u{200a}') || c == '\u{2028}' || c == '\u{2029}' || c
        == '\u{202f}' || c == '\u{205f}' || c == '\u{3000}'
}

pub open spec fn trim_front(s: Seq<char>) -> Seq<char>
    decreases s.len(),
{
    if s.len() > 0 && is_space(s[0]) {
        trim_front(s.drop_first())
    } else {
        s
    }
}

pub open spec fn trim_back(s: Seq<char>) -> Seq<char>
    decreases s.len(),
{
    if s.len() > 0 && is_space(s.last()) {
        trim_back(s.drop_last())
    } else {
        s
    }
}

/// `s` without the white space at either end.
pub open spec fn trimmed(s: Seq<char>) -> Seq<char> {
    trim_back(trim_front(s))
}

/// Whether two texts hold the same characters.
pub fn same(a: &str, b: &str) -> (r: bool)
    ensures
        r == (a@ == b@),
{
    let n = a.unicode_len();
    if n != b.unicode_len() {
        return false;
    }
    let mut i: usize = 0;
    while i < n
        invariant
            n == a@.len() == b@.len(),
            0 <= i <= n,
            forall|k: int| 0 <= k < i ==> a@[k] == b@[k],
        decreases n - i,
    {
        if a.get_char(i) != b.get_char(i) {
            return false;
        }
        i = i + 1;
    }
    assert(a@ =~= b@);
    true
}

/// `s` without the white space at either end.
pub fn trim(s: &str) -> (r: &str)
    ensures
        r@ == trimmed(s@),
{
    let n = s.unicode_len();
    let mut i: usize = 0;
    assert(s@.subrange(0, n as int) =~= s@);
    while i < n && space(s.get_char(i))
        invariant
            n == s@.len(),
            0 <= i <= n,
            trim_front(s@) == trim_front(s@.subrange(i as int, n as int)),
        decreases n - i,
    {
        assert(s@.subrange(i as int, n as int).drop_first() =~= s@.subrange(i + 1, n as int));
        i = i + 1;
    }
    assert(trim_front(s@) == s@.subrange(i as int, n as int));
    let mut j: usize = n;
    while j > i && space(s.get_char(j - 1))
        invariant
            n == s@.len(),
            0 <= i <= j <= n,
            trimmed(s@) == trim_back(s@.subrange(i as int, j as int)),
        decreases j,
    {
        assert(s@.subrange(i as int, j as int).drop_last() =~= s@.subrange(i as int, j - 1));
        j = j - 1;
    }
    s.substring_char(i, j)
}

/// Where the last slash of `s` stands, or -1 where there is none.
pub open spec fn last_slash(s: Seq<char>) -> int
    decreases s.len(),
{
    if s.len() == 0 {
        -1
    } else if s.last() == '/' {
        s.len() - 1
    } else {
        last_slash(s.drop_last())
    }
}

/// The last normal component of a path, as std's `Path::file_name` finds it on
/// Unix: empty and `.` components are passed over, and a path that ends in
/// `..`, or has no component left, has none.
pub open spec fn file_name(s: Seq<char>) -> Option<Seq<char>>
    decreases s.len(),
{
    if s.len() == 0 {
        None
    } else if s.last() == '/' {
        file_name(s.drop_last())
    } else if s == seq!['.'] {
        None
    } else if s.len() >= 2 && s.last() == '.' && s[s.len() - 2] == '/' {
        file_name(s.drop_last().drop_last())
    } else {
        let seg = s.subrange(last_slash(s) + 1, s.len() as int);
        if seg == seq!['.', '.'] {
            None
        } else {
            Some(seg)
        }
    }
}

/// The last component of the path `s` (see `file_name`).
pub fn path_file_name(s: &str) -> (r: Option<&str>)
    ensures
        match r {
            Some(x) => file_name(s@) == Some(x@),
            None => file_name(s@) is None,
        },
{
    let n = s.unicode_len();
    let mut end: usize = n;
    assert(s@.subrange(0, n as int) =~= s@);
    loop
        invariant
            n == s@.len(),
            end <= n,
            file_name(s@) == file_name(s@.subrange(0, end as int)),
        decreases end,
    {
        let ghost p = s@.subrange(0, end as int);
        if end == 0 {
            return None;
        }
        let c = s.get_char(end - 1);
        assert(p.last() == c);
        if c == '/' {
            assert(p.drop_last() =~= s@.subrange(0, end - 1));
            end = end - 1;
        } else if end == 1 && c == '.' {
            assert(p =~= seq!['.']);
            return None;
        } else if end >= 2 && c == '.' && s.get_char(end - 2) == '/' {
            assert(p.drop_last().drop_last() =~= s@.subrange(0, end - 2));
            end = end - 2;
        } else {
            proof {
                if end == 1 {
                    assert(p != seq!['.']);
                }
            }
            let mut k: usize = end;
            assert(p.subrange(0, end as int) =~= p);
            while k > 0 && s.get_char(k - 1) != '/'
                invariant
                    n == s@.len(),
                    end <= n,
                    0 <= k <= end,
                    p == s@.subrange(0, end as int),
                    last_slash(p) == last_slash(p.subrange(0, k as int)),
                decreases k,
            {
                assert(p.subrange(0, k as int).drop_last() =~= p.subrange(0, k - 1));
                k = k - 1;
            }
            proof {
                if k > 0 {
                    assert(p.subrange(0, k as int).last() == '/');
                } else {
                    assert(p.subrange(0, 0).len() == 0);
                }
                assert(p.subrange(last_slash(p) + 1, p.len() as int) =~= s@.subrange(
                    k as int,
                    end as int,
                ));
            }
            let seg = s.substring_char(k, end);
            let dots = end - k == 2 && seg.get_char(0) == '.' && seg.get_char(1) == '.';
            proof {
                if end - k == 2 {
                    assert(dots == (seg@ =~= seq!['.', '.']));
                } else {
                    assert(seg@.len() != 2);
                }
            }
            if dots {
                return None;
            }
            return Some(seg);
        }
    }
}

/// The name that a command is known by: the last component of its path, or
/// `mcp-server` where the path has none.
pub fn extract_server_name(cmd: &str) -> (r: String)
    ensures
        r@ == match file_name(cmd@) {
            Some(n) => n,
            None => "mcp-server"@,
        },
{
    match path_file_name(cmd) {
        Some(n) => String::from_str(n),
        None => String::from_str("mcp-server"),
    }
}

} // verus!
