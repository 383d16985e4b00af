//! Finding the destination host in the first line of a request.
use vstd::prelude::*;

verus! {

/// Whether `c` is white space in the sense of `char::is_whitespace`
/// (the Unicode `White_Space` property).
pub open spec fn is_space(c: char) -> bool {
    let u = c as u32;
    ||| 0x09 <= u <= 0x0d
    ||| u == 0x20
    ||| u == 0x85
    ||| u == 0xa0
    ||| u == 0x1680
    ||| 0x2000 <= u <= 0x200a
    ||| u == 0x2028
    ||| u == 0x2029
    ||| u == 0x202f
    ||| u == 0x205f
    ||| u == 0x3000
}

/// The index of the first line feed at or after `i`, or the length of `s`.
pub open spec fn line_end(s: Seq<char>, i: int) -> int
    decreases s.len() - i,
{
    if i < 0 || i >= s.len() {
        s.len() as int
    } else if s[i] == '\n' {
        i
    } else {
        line_end(s, i + 1)
    }
}

/// The first index at or after `i` whose character is white space exactly
/// when `space` holds, or the length of `s`.
pub open spec fn skip_until(s: Seq<char>, i: int, space: bool) -> int
    decreases s.len() - i,
{
    if i < 0 || i >= s.len() {
        s.len() as int
    } else if is_space(s[i]) == space {
        i
    } else {
        skip_until(s, i + 1, space)
    }
}

/// The request target: the second white-space-delimited token of the first
/// line, if that line has one.
pub open spec fn target_of(s: Seq<char>) -> Option<Seq<char>> {
    let line = s.subrange(0, line_end(s, 0));
    let first = skip_until(line, 0, false);
    let gap = skip_until(line, first, true);
    let start = skip_until(line, gap, false);
    if start >= line.len() {
        None
    } else {
        Some(line.subrange(start, skip_until(line, start, true)))
    }
}

/// Whether the scheme separator `://` starts at index `i` of `t`.
pub open spec fn sep_at(t: Seq<char>, i: int) -> bool {
    0 <= i && i + 3 <= t.len() && t[i] == ':' && t[i + 1] == '/' && t[i + 2] == '/'
}

/// The first index at or after `i` where `://` starts, or the length of `t`.
pub open spec fn find_sep(t: Seq<char>, i: int) -> int
    decreases t.len() - i,
{
    if i < 0 || i >= t.len() {
        t.len() as int
    } else if sep_at(t, i) {
        i
    } else {
        find_sep(t, i + 1)
    }
}

/// The first index at or after `i` that holds a slash, or the length of `t`.
pub open spec fn find_slash(t: Seq<char>, i: int) -> int
    decreases t.len() - i,
{
    if i < 0 || i >= t.len() {
        t.len() as int
    } else if t[i] == '/' {
        i
    } else {
        find_slash(t, i + 1)
    }
}

/// Where the host starts in a target: just after the first `://`, or at the
/// start when there is none.
pub open spec fn host_start(t: Seq<char>) -> int {
    let sep = find_sep(t, 0);
    if sep < t.len() {
        sep + 3
    } else {
        0
    }
}

/// The host named by a target: from `host_start` up to the first slash after
/// it. There is none when no slash follows or the host would be empty.
pub open spec fn host_of_target(t: Seq<char>) -> Option<Seq<char>> {
    let start = host_start(t);
    let end = find_slash(t, start);
    if end >= t.len() || end == start {
        None
    } else {
        Some(t.subrange(start, end))
    }
}

/// The destination host of a request text.
pub open spec fn destination_of(s: Seq<char>) -> Option<Seq<char>> {
    match target_of(s) {
        Some(t) => host_of_target(t),
        None => None,
    }
}

/// Whether a character is white space (`char::is_whitespace`).
pub fn is_space_char(c: char) -> (r: bool)
    ensures
        r == is_space(c),
{
    let u = c as u32;
    (0x09 <= u && u <= 0x0d) || u == 0x20 || u == 0x85 || u == 0xa0 || u == 0x1680 || (0x2000
        <= u && u <= 0x200a) || u == 0x2028 || u == 0x2029 || u == 0x202f || u == 0x205f || u
        == 0x3000
}

/// The characters of `s`, in order.
pub(crate) fn chars_of(s: &str) -> (r: Vec<char>)
    ensures
        r@ == s@,
{
    let mut r: Vec<char> = Vec::new();
    for c in it: s.chars()
        invariant
            it.seq() == s@,
            r@ == it.seq().subrange(0, it.index() as int),
    {
        r.push(c);
    }
    r
}

/// `skip_until` on the first `n` characters of `v`, from `i`.
fn skip_exec(v: &Vec<char>, n: usize, i: usize, space: bool) -> (r: usize)
    requires
        i <= n <= v.len(),
    ensures
        r as int == skip_until(v@.subrange(0, n as int), i as int, space),
        i <= r <= n,
{
    let ghost line = v@.subrange(0, n as int);
    let mut j = i;
    while j < n && is_space_char(v[j]) != space
        invariant
            i <= j <= n <= v.len(),
            line == v@.subrange(0, n as int),
            skip_until(line, j as int, space) == skip_until(line, i as int, space),
        decreases n - j,
    {
        j = j + 1;
    }
    j
}

/// Finds the request target in `v`: the second white-space-delimited token of
/// its first line, as a range of indices.
fn find_target(v: &Vec<char>) -> (r: Option<(usize, usize)>)
    ensures
        r matches Some((a, b)) ==> a <= b <= v@.len() && target_of(v@) == Some(
            v@.subrange(a as int, b as int),
        ),
        r is None ==> target_of(v@) is None,
{
    let mut e: usize = 0;
    while e < v.len() && v[e] != '\n'
        invariant
            e <= v.len(),
            line_end(v@, e as int) == line_end(v@, 0),
        decreases v.len() - e,
    {
        e = e + 1;
    }
    let ghost line = v@.subrange(0, e as int);
    let first = skip_exec(v, e, 0, false);
    let gap = skip_exec(v, e, first, true);
    let start = skip_exec(v, e, gap, false);
    if start >= e {
        return None;
    }
    let stop = skip_exec(v, e, start, true);
    assert(line.subrange(start as int, stop as int) =~= v@.subrange(start as int, stop as int));
    Some((start, stop))
}

/// Whether a target names a resource whose name ends in `.jpg`.
pub open spec fn names_image(t: Seq<char>) -> bool {
    t.len() >= 4 && t.subrange(t.len() - 4, t.len() as int) == seq!['.', 'j', 'p', 'g']
}

/// Whether a request text asks for an image: its target ends in `.jpg`.
pub open spec fn is_image_request(s: Seq<char>) -> bool {
    target_of(s) matches Some(t) && names_image(t)
}

/// Tells whether the request's target names an image (ends in `.jpg`).
pub fn asks_for_image(request: &str) -> (r: bool)
    ensures
        r == is_image_request(request@),
{
    let v = chars_of(request);
    match find_target(&v) {
        None => false,
        Some((a, b)) => {
            let ghost t = v@.subrange(a as int, b as int);
            if b - a < 4 {
                return false;
            }
            let r = v[b - 4] == '.' && v[b - 3] == 'j' && v[b - 2] == 'p' && v[b - 1] == 'g';
            assert(r == (t.subrange(t.len() - 4, t.len() as int) =~= seq!['.', 'j', 'p', 'g']));
            r
        },
    }
}

/// Extracts the destination host from the text of a request: the second
/// white-space-delimited token of the first line, with everything up to
/// and including a leading `scheme://` removed, cut at the first slash.
/// Returns `None` when the first line has no second token, when no slash
/// follows the host, or when the host is empty.
pub fn parse_domain(request: &str) -> (r: Option<&str>)
    ensures
        r matches Some(h) ==> destination_of(request@) == Some(h@),
        r is None ==> destination_of(request@) is None,
        target_of(request@) is None ==> r is None,
        (target_of(request@) matches Some(t) && find_slash(t, host_start(t)) >= t.len())
            ==> r is None,
{
    let v = chars_of(request);
    let (start, stop) = match find_target(&v) {
        None => {
            return None;
        },
        Some(p) => p,
    };
    let ghost t = v@.subrange(start as int, stop as int);
    // look for "://" within the target
    let mut k: usize = start;
    while stop - k >= 3 && !(v[k] == ':' && v[k + 1] == '/' && v[k + 2] == '/')
        invariant
            start <= k <= stop <= v.len(),
            v@ == request@,
            t == request@.subrange(start as int, stop as int),
            find_sep(t, (k - start) as int) == find_sep(t, 0),
        decreases stop - k,
    {
        k = k + 1;
    }
    let ghost sep = find_sep(t, (k - start) as int);
    assert(stop - k < 3 ==> sep == t.len()) by {
        if stop - k < 3 {
            lemma_no_sep_tail(t, (k - start) as int);
        }
    }
    let host_from: usize = if stop - k >= 3 {
        k + 3
    } else {
        start
    };
    assert(host_from - start == host_start(t));
    let mut m: usize = host_from;
    while m < stop && v[m] != '/'
        invariant
            start <= host_from <= m <= stop <= v.len(),
            v@ == request@,
            t == request@.subrange(start as int, stop as int),
            find_slash(t, (m - start) as int) == find_slash(t, (host_from - start) as int),
        decreases stop - m,
    {
        m = m + 1;
    }
    if m >= stop || m == host_from {
        return None;
    }
    let h = request.substring_char(host_from, m);
    assert(h@ =~= t.subrange((host_from - start) as int, (m - start) as int));
    Some(h)
}

/// Whether no character of `s` is white space.
pub open spec fn no_space(s: Seq<char>) -> bool {
    forall|k: int| 0 <= k < s.len() ==> !is_space(#[trigger] s[k])
}

/// A request text made of `GET`, a target and ` HTTP/` with a version and
/// whatever follows it.
pub open spec fn get_request(target: Seq<char>, version: Seq<char>, rest: Seq<char>) -> Seq<
    char,
> {
    seq!['G', 'E', 'T', ' '] + target + seq![' ', 'H', 'T', 'T', 'P', '/'] + version + rest
}

/// `skip_until` stops at the first index whose character has the sought kind.
proof fn lemma_skip_until(s: Seq<char>, i: int, j: int, space: bool)
    requires
        0 <= i <= j <= s.len(),
        forall|k: int| i <= k < j ==> is_space(#[trigger] s[k]) != space,
        j == s.len() || is_space(s[j]) == space,
    ensures
        skip_until(s, i, space) == j,
    decreases j - i,
{
    if i < j {
        lemma_skip_until(s, i + 1, j, space);
    }
}

/// `line_end` passes over characters that are not line feeds.
proof fn lemma_line_end(s: Seq<char>, i: int, j: int)
    requires
        0 <= i <= j <= s.len(),
        forall|k: int| i <= k < j ==> #[trigger] s[k] != '\n',
    ensures
        line_end(s, i) == line_end(s, j),
        line_end(s, j) >= j,
    decreases j - i,
{
    if i < j {
        lemma_line_end(s, i + 1, j);
    } else {
        lemma_line_end_bound(s, j);
    }
}

/// The end of a line lies at or after where the search starts.
proof fn lemma_line_end_bound(s: Seq<char>, i: int)
    requires
        0 <= i <= s.len(),
    ensures
        i <= line_end(s, i) <= s.len(),
    decreases s.len() - i,
{
    if i < s.len() {
        lemma_line_end_bound(s, i + 1);
    }
}

/// `find_slash` stops at the first slash.
proof fn lemma_find_slash(t: Seq<char>, i: int, j: int)
    requires
        0 <= i <= j < t.len(),
        forall|k: int| i <= k < j ==> #[trigger] t[k] != '/',
        t[j] == '/',
    ensures
        find_slash(t, i) == j,
    decreases j - i,
{
    if i < j {
        lemma_find_slash(t, i + 1, j);
    }
}

/// `find_sep` stops at the first `://`, or runs to the end when there is none.
proof fn lemma_find_sep(t: Seq<char>, i: int, j: int)
    requires
        0 <= i <= j <= t.len(),
        forall|k: int| i <= k < j ==> !#[trigger] sep_at(t, k),
        j == t.len() || sep_at(t, j),
    ensures
        find_sep(t, i) == j,
    decreases j - i,
{
    if i < j {
        lemma_find_sep(t, i + 1, j);
    }
}

/// The target of `GET <target> HTTP/<version>...` is `<target>`, whatever
/// follows the version.
pub proof fn lemma_target_of_get(target: Seq<char>, version: Seq<char>, rest: Seq<char>)
    requires
        target.len() > 0,
        no_space(target),
    ensures
        target_of(get_request(target, version, rest)) == Some(target),
{
    let s = get_request(target, version, rest);
    let p = 4 + target.len() as int;
    assert(s[p] == ' ');
    assert forall|k: int| 0 <= k < p implies #[trigger] s[k] != '\n' && (k != 3 ==> !is_space(
        s[k],
    )) by {
        if k >= 4 {
            assert(s[k] == target[k - 4]);
        }
    }
    lemma_line_end(s, 0, p + 1);
    let e = line_end(s, 0);
    lemma_line_end_bound(s, p + 1);
    let line = s.subrange(0, e);
    lemma_skip_until(line, 0, 0, false);
    lemma_skip_until(line, 0, 3, true);
    lemma_skip_until(line, 3, 4, false);
    lemma_skip_until(line, 4, p, true);
    assert(line.subrange(4, p) =~= target);
}

/// For `GET <scheme>://<host>/<path> HTTP/<version>...` the destination is
/// `<host>`: the scheme, the separator and the path are left out.
pub proof fn lemma_host_with_scheme(
    scheme: Seq<char>,
    host: Seq<char>,
    path: Seq<char>,
    version: Seq<char>,
    rest: Seq<char>,
)
    requires
        no_space(scheme),
        no_space(host),
        no_space(path),
        host.len() > 0,
        forall|k: int| 0 <= k < scheme.len() ==> #[trigger] scheme[k] != ':',
        forall|k: int| 0 <= k < host.len() ==> #[trigger] host[k] != '/',
    ensures
        destination_of(
            get_request(scheme + seq![':', '/', '/'] + host + seq!['/'] + path, version, rest),
        ) == Some(host),
{
    let t = scheme + seq![':', '/', '/'] + host + seq!['/'] + path;
    let n = scheme.len() as int;
    assert forall|k: int| 0 <= k < t.len() implies !is_space(#[trigger] t[k]) by {
        if k < n {
            assert(t[k] == scheme[k]);
        } else if n + 3 <= k < n + 3 + host.len() {
            assert(t[k] == host[k - n - 3]);
        } else if k > n + 3 + host.len() {
            assert(t[k] == path[k - n - 4 - host.len()]);
        }
    }
    lemma_target_of_get(t, version, rest);
    assert forall|k: int| 0 <= k < n implies !#[trigger] sep_at(t, k) by {
        assert(t[k] == scheme[k]);
    }
    lemma_find_sep(t, 0, n);
    let h = n + 3 + host.len();
    assert forall|k: int| n + 3 <= k < h implies #[trigger] t[k] != '/' by {
        assert(t[k] == host[k - n - 3]);
    }
    lemma_find_slash(t, n + 3, h);
    assert(t.subrange(n + 3, h) =~= host);
}

/// For `GET <host>/<path> HTTP/<version>...`, with no `://` in the target,
/// the destination is `<host>`, as with a scheme.
pub proof fn lemma_host_without_scheme(
    host: Seq<char>,
    path: Seq<char>,
    version: Seq<char>,
    rest: Seq<char>,
)
    requires
        no_space(host),
        no_space(path),
        host.len() > 0,
        forall|k: int| 0 <= k < host.len() ==> #[trigger] host[k] != '/',
        forall|k: int| !#[trigger] sep_at(host + seq!['/'] + path, k),
    ensures
        destination_of(get_request(host + seq!['/'] + path, version, rest)) == Some(host),
{
    let t = host + seq!['/'] + path;
    let h = host.len() as int;
    assert forall|k: int| 0 <= k < t.len() implies !is_space(#[trigger] t[k]) by {
        if k < h {
            assert(t[k] == host[k]);
        } else if k > h {
            assert(t[k] == path[k - h - 1]);
        }
    }
    lemma_target_of_get(t, version, rest);
    lemma_find_sep(t, 0, t.len() as int);
    assert forall|k: int| 0 <= k < h implies #[trigger] t[k] != '/' by {
        assert(t[k] == host[k]);
    }
    lemma_find_slash(t, 0, h);
    assert(t.subrange(0, h) =~= host);
}

/// Past the last place where three characters fit, no `://` starts.
proof fn lemma_no_sep_tail(t: Seq<char>, i: int)
    requires
        0 <= i <= t.len(),
        i + 3 > t.len(),
    ensures
        find_sep(t, i) == t.len(),
    decreases t.len() - i,
{
    if i < t.len() {
        lemma_no_sep_tail(t, i + 1);
    }
}

} // verus!
