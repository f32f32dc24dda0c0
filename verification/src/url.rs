//! Locator decomposition: splits an `http://` locator into host, port,
//! path and search part by plain string splitting.

use vstd::prelude::*;

use crate::chars::chars_of;
use crate::chars::string_of;

verus! {

/// First position of `c` in `s` at or after `i`, or a negative value when
/// there is none.
pub open spec fn find_from(s: Seq<char>, c: char, i: int) -> int
    decreases s.len() - i,
{
    if i < 0 || i >= s.len() {
        -1
    } else if s[i] == c {
        i
    } else {
        find_from(s, c, i + 1)
    }
}

/// Whether the locator text opens with the `http` scheme marker.
pub open spec fn has_http_scheme(s: Seq<char>) -> bool {
    s.len() >= 7 && s.subrange(0, 7) == "http://"@
}

/// The locator text with every leading `http://` marker removed.
pub open spec fn trim_scheme(s: Seq<char>) -> Seq<char>
    decreases s.len(),
{
    if has_http_scheme(s) {
        trim_scheme(s.skip(7))
    } else {
        s
    }
}

/// Everything before the first `/` of the trimmed locator: the host, with
/// its optional `:port`.
pub open spec fn host_port_of(u: Seq<char>) -> Seq<char> {
    let rest = trim_scheme(u);
    let slash = find_from(rest, '/', 0);
    if slash >= 0 {
        rest.take(slash)
    } else {
        rest
    }
}

/// The host part of a locator.
pub open spec fn host_of(u: Seq<char>) -> Seq<char> {
    let hp = host_port_of(u);
    let colon = find_from(hp, ':', 0);
    if colon >= 0 {
        hp.take(colon)
    } else {
        hp
    }
}

/// The port part of a locator; without an explicit port it is `80`.
pub open spec fn port_of(u: Seq<char>) -> Seq<char> {
    let hp = host_port_of(u);
    let colon = find_from(hp, ':', 0);
    if colon >= 0 {
        hp.skip(colon + 1)
    } else {
        "80"@
    }
}

/// Everything after the first `/` of the trimmed locator, when one is
/// there.
pub open spec fn after_host_of(u: Seq<char>) -> Option<Seq<char>> {
    let rest = trim_scheme(u);
    let slash = find_from(rest, '/', 0);
    if slash >= 0 {
        Some(rest.skip(slash + 1))
    } else {
        None
    }
}

/// The path part of a locator: between the first `/` and the first `?`.
pub open spec fn path_of(u: Seq<char>) -> Seq<char> {
    match after_host_of(u) {
        Some(tail) => {
            let q = find_from(tail, '?', 0);
            if q >= 0 {
                tail.take(q)
            } else {
                tail
            }
        },
        None => Seq::<char>::empty(),
    }
}

/// The search part of a locator: everything after the first `?` of the
/// path segment.
pub open spec fn searchpart_of(u: Seq<char>) -> Seq<char> {
    match after_host_of(u) {
        Some(tail) => {
            let q = find_from(tail, '?', 0);
            if q >= 0 {
                tail.skip(q + 1)
            } else {
                Seq::<char>::empty()
            }
        },
        None => Seq::<char>::empty(),
    }
}

/// A locator and its parsed parts; the parts are empty until `parse` has
/// accepted the locator.
#[derive(Debug, Clone, PartialEq, Eq)]
pub struct Url {
    pub url: String,
    pub host: String,
    pub port: String,
    pub path: String,
    pub searchpart: String,
}

/// First position of `c` in `cs` at or after `from`, executable.
fn find_char_from(cs: &Vec<char>, c: char, from: usize) -> (r: Option<usize>)
    requires
        from <= cs@.len(),
    ensures
        match r {
            Some(i) => from <= i < cs@.len() && find_from(cs@, c, from as int) == i,
            None => find_from(cs@, c, from as int) == -1,
        },
{
    let mut i = from;
    while i < cs.len()
        invariant
            from <= i <= cs@.len(),
            find_from(cs@, c, from as int) == find_from(cs@, c, i as int),
        decreases cs@.len() - i,
    {
        if cs[i] == c {
            return Some(i);
        }
        i = i + 1;
    }
    None
}

/// The characters `cs[from .. to]`, as a fresh string.
fn segment(cs: &Vec<char>, from: usize, to: usize) -> (r: String)
    requires
        from <= to <= cs@.len(),
    ensures
        r@ == cs@.subrange(from as int, to as int),
{
    let mut v: Vec<char> = Vec::new();
    let mut i = from;
    while i < to
        invariant
            from <= i <= to <= cs@.len(),
            v@ == cs@.subrange(from as int, i as int),
        decreases to - i,
    {
        v.push(cs[i]);
        i = i + 1;
        proof {
            assert(v@ =~= cs@.subrange(from as int, i as int));
        }
    }
    string_of(&v)
}

/// Whether `http://` stands at position `from` of `cs`.
fn scheme_at(cs: &Vec<char>, from: usize) -> (r: bool)
    requires
        from <= cs@.len(),
    ensures
        r == has_http_scheme(cs@.skip(from as int)),
{
    if cs.len() - from < 7 {
        proof {
            reveal_strlit("http://");
        }
        return false;
    }
    let r = cs[from] == 'h' && cs[from + 1] == 't' && cs[from + 2] == 't' && cs[from + 3] == 'p'
        && cs[from + 4] == ':' && cs[from + 5] == '/' && cs[from + 6] == '/';
    proof {
        reveal_strlit("http://");
        if r {
            assert(cs@.skip(from as int).subrange(0, 7) =~= "http://"@);
        } else {
            if cs@.skip(from as int).subrange(0, 7) == "http://"@ {
                assert(cs@.skip(from as int).subrange(0, 7)[0] == 'h');
                assert(cs@.skip(from as int).subrange(0, 7)[1] == 't');
                assert(cs@.skip(from as int).subrange(0, 7)[2] == 't');
                assert(cs@.skip(from as int).subrange(0, 7)[3] == 'p');
                assert(cs@.skip(from as int).subrange(0, 7)[4] == ':');
                assert(cs@.skip(from as int).subrange(0, 7)[5] == '/');
                assert(cs@.skip(from as int).subrange(0, 7)[6] == '/');
                assert(false);
            }
        }
    }
    r
}

impl Url {
    /// A locator holder over the given text, with no parts parsed yet.
    pub fn new(url: String) -> (u: Url)
        ensures
            u.url == url,
            u.host@ == Seq::<char>::empty(),
            u.port@ == Seq::<char>::empty(),
            u.path@ == Seq::<char>::empty(),
            u.searchpart@ == Seq::<char>::empty(),
    {
        Url {
            url,
            host: String::new(),
            port: String::new(),
            path: String::new(),
            searchpart: String::new(),
        }
    }

    /// Splits the locator into its parts. A locator that does not open
    /// with the `http` scheme is rejected, and the holder is left as it
    /// was; an accepted one has its parts filled in and handed back.
    pub fn parse(&mut self) -> (r: Result<Url, String>)
        ensures
            has_http_scheme(old(self).url@) ==> ({
                &&& final(self).url == old(self).url
                &&& final(self).host@ == host_of(old(self).url@)
                &&& final(self).port@ == port_of(old(self).url@)
                &&& final(self).path@ == path_of(old(self).url@)
                &&& final(self).searchpart@ == searchpart_of(old(self).url@)
                &&& (r matches Ok(u) && u == *final(self))
            }),
            !has_http_scheme(old(self).url@) ==> *final(self) == *old(self) && (r matches Err(m)
                && m@ == "only HTTP scheme is supported."@),
    {
        if !self.is_http() {
            return Err(String::from_str("only HTTP scheme is supported."));
        }
        self.host = self.extract_host();
        self.port = self.extract_port();
        self.path = self.extract_path();
        self.searchpart = self.extract_searchpart();
        let copy = Url {
            url: self.url.clone(),
            host: self.host.clone(),
            port: self.port.clone(),
            path: self.path.clone(),
            searchpart: self.searchpart.clone(),
        };
        proof {
            assert(copy == *self);
        }
        Ok(copy)
    }

    pub fn host(&self) -> (r: String)
        ensures
            r == self.host,
    {
        self.host.clone()
    }

    pub fn port(&self) -> (r: String)
        ensures
            r == self.port,
    {
        self.port.clone()
    }

    pub fn path(&self) -> (r: String)
        ensures
            r == self.path,
    {
        self.path.clone()
    }

    pub fn searchpart(&self) -> (r: String)
        ensures
            r == self.searchpart,
    {
        self.searchpart.clone()
    }

    /// Whether the locator opens with the `http` scheme marker.
    pub fn is_http(&self) -> (r: bool)
        ensures
            r == has_http_scheme(self.url@),
    {
        let cs = chars_of(self.url.as_str());
        let r = scheme_at(&cs, 0);
        proof {
            assert(cs@.skip(0) =~= cs@);
        }
        r
    }

    /// The trimmed locator, with the cursor past every leading scheme
    /// marker.
    fn trimmed(&self) -> (pair: (Vec<char>, usize))
        ensures
            pair.1 <= pair.0@.len(),
            pair.0@ == self.url@,
            pair.0@.skip(pair.1 as int) == trim_scheme(self.url@),
    {
        let cs = chars_of(self.url.as_str());
        let n = cs.len();
        let mut start: usize = 0;
        proof {
            assert(cs@.skip(0) =~= cs@);
        }
        while scheme_at(&cs, start)
            invariant
                start <= n,
                n == cs@.len(),
                cs@ == self.url@,
                trim_scheme(cs@.skip(start as int)) == trim_scheme(self.url@),
            decreases n - start,
        {
            proof {
                reveal_strlit("http://");
                assert(cs@.skip(start as int).skip(7) =~= cs@.skip(start as int + 7));
            }
            start = start + 7;
        }
        (cs, start)
    }

    /// The host part: before the first `/` and before any `:`.
    pub fn extract_host(&self) -> (r: String)
        ensures
            r@ == host_of(self.url@),
    {
        let (cs, start) = self.trimmed();
        let n = cs.len();
        let ghost u = self.url@;
        let ghost rest = cs@.skip(start as int);
        let slash = find_char_from(&cs, '/', start);
        let hp_end: usize = match slash {
            Some(i) => i,
            None => n,
        };
        proof {
            lemma_find_bounds(cs@, '/', start as int);
            lemma_find_skip(cs@, '/', start as int);
            assert(host_port_of(u) =~= cs@.subrange(start as int, hp_end as int));
        }
        let colon = find_char_from(&cs, ':', start);
        let host_end: usize = match colon {
            Some(i) => if i < hp_end {
                i
            } else {
                hp_end
            },
            None => hp_end,
        };
        proof {
            lemma_find_bounds(cs@, ':', start as int);
            lemma_find_in_prefix(cs@, ':', start as int, hp_end as int);
            assert(host_of(u) =~= cs@.subrange(start as int, host_end as int));
        }
        segment(&cs, start, host_end)
    }

    /// The port part: after the `:` of the host, or `80` without one.
    pub fn extract_port(&self) -> (r: String)
        ensures
            r@ == port_of(self.url@),
    {
        let (cs, start) = self.trimmed();
        let n = cs.len();
        let ghost u = self.url@;
        let slash = find_char_from(&cs, '/', start);
        let hp_end: usize = match slash {
            Some(i) => i,
            None => n,
        };
        proof {
            lemma_find_bounds(cs@, '/', start as int);
            lemma_find_skip(cs@, '/', start as int);
            assert(host_port_of(u) =~= cs@.subrange(start as int, hp_end as int));
        }
        let colon = find_char_from(&cs, ':', start);
        proof {
            lemma_find_bounds(cs@, ':', start as int);
            lemma_find_in_prefix(cs@, ':', start as int, hp_end as int);
        }
        match colon {
            Some(i) => {
                if i < hp_end {
                    let r = segment(&cs, i + 1, hp_end);
                    proof {
                        assert(port_of(u) =~= cs@.subrange(i as int + 1, hp_end as int));
                    }
                    r
                } else {
                    proof {
                        reveal_strlit("80");
                    }
                    String::from_str("80")
                }
            },
            None => {
                proof {
                    reveal_strlit("80");
                }
                String::from_str("80")
            },
        }
    }

    /// The path part: between the first `/` and the first `?`, empty
    /// without a `/`.
    pub fn extract_path(&self) -> (r: String)
        ensures
            r@ == path_of(self.url@),
    {
        let (cs, start) = self.trimmed();
        let n = cs.len();
        let ghost u = self.url@;
        let slash = find_char_from(&cs, '/', start);
        proof {
            lemma_find_bounds(cs@, '/', start as int);
            lemma_find_skip(cs@, '/', start as int);
        }
        match slash {
            Some(i) => {
                proof {
                    assert(after_host_of(u) matches Some(tail) && tail =~= cs@.skip(i as int + 1));
                }
                let q = find_char_from(&cs, '?', i + 1);
                let path_end: usize = match q {
                    Some(k) => k,
                    None => n,
                };
                proof {
                    lemma_find_bounds(cs@, '?', i as int + 1);
                    lemma_find_skip(cs@, '?', i as int + 1);
                    assert(path_of(u) =~= cs@.subrange(i as int + 1, path_end as int));
                }
                segment(&cs, i + 1, path_end)
            },
            None => String::new(),
        }
    }

    /// The search part: after the first `?` of the path segment, empty
    /// without one.
    pub fn extract_searchpart(&self) -> (r: String)
        ensures
            r@ == searchpart_of(self.url@),
    {
        let (cs, start) = self.trimmed();
        let n = cs.len();
        let ghost u = self.url@;
        let slash = find_char_from(&cs, '/', start);
        proof {
            lemma_find_bounds(cs@, '/', start as int);
            lemma_find_skip(cs@, '/', start as int);
        }
        match slash {
            Some(i) => {
                proof {
                    assert(after_host_of(u) matches Some(tail) && tail =~= cs@.skip(i as int + 1));
                }
                let q = find_char_from(&cs, '?', i + 1);
                proof {
                    lemma_find_bounds(cs@, '?', i as int + 1);
                    lemma_find_skip(cs@, '?', i as int + 1);
                }
                match q {
                    Some(k) => {
                        let r = segment(&cs, k + 1, n);
                        proof {
                            assert(searchpart_of(u) =~= cs@.subrange(
                                k as int + 1,
                                cs@.len() as int,
                            ));
                        }
                        r
                    },
                    None => String::new(),
                }
            },
            None => String::new(),
        }
    }
}

/// A hit of `find_from` lies between the start position and the end.
proof fn lemma_find_bounds(s: Seq<char>, c: char, i: int)
    requires
        0 <= i <= s.len(),
    ensures
        find_from(s, c, i) == -1 || i <= find_from(s, c, i) < s.len(),
    decreases s.len() - i,
{
    if i < s.len() && s[i] != c {
        lemma_find_bounds(s, c, i + 1);
    }
}

/// Finding in a suffix is finding in the whole, shifted.
proof fn lemma_find_skip(s: Seq<char>, c: char, start: int)
    requires
        0 <= start <= s.len(),
    ensures
        find_from(s.skip(start), c, 0) == (if find_from(s, c, start) >= 0 {
            find_from(s, c, start) - start
        } else {
            -1
        }),
{
    lemma_find_bounds(s, c, start);
    lemma_find_bounds(s.skip(start), c, 0);
    lemma_find_offset(s, c, start, 0);
    let f = find_from(s, c, start);
    let g = find_from(s.skip(start), c, 0);
    assert(f == find_from(s, c, start + 0));
    assert(f == (if g >= 0 {
        g + start
    } else {
        -1
    }));
}

/// `find_from` over `s` from `base + k` mirrors `find_from` over the
/// suffix at `base` from `k`.
proof fn lemma_find_offset(s: Seq<char>, c: char, base: int, k: int)
    requires
        0 <= base <= s.len(),
        0 <= k,
    ensures
        find_from(s, c, base + k) == (if find_from(s.skip(base), c, k) >= 0 {
            find_from(s.skip(base), c, k) + base
        } else {
            -1
        }),
    decreases s.len() - base - k,
{
    let suf = s.skip(base);
    lemma_find_bounds(s, c, if base + k <= s.len() { base + k } else { s.len() as int });
    if base + k < s.len() {
        assert(suf[k] == s[base + k]);
        if s[base + k] != c {
            lemma_find_offset(s, c, base, k + 1);
        }
    }
}

/// A hit below `cut` is unchanged by cutting the sequence at `cut`; a miss
/// or a hit at or past `cut` leaves the cut prefix without one.
proof fn lemma_find_in_prefix(s: Seq<char>, c: char, start: int, cut: int)
    requires
        0 <= start <= cut <= s.len(),
    ensures
        ({
            let f = find_from(s, c, start);
            let g = find_from(s.subrange(start, cut), c, 0);
            &&& (0 <= f < cut ==> g == f - start)
            &&& ((f == -1 || f >= cut) ==> g == -1)
        }),
{
    lemma_find_bounds(s, c, start);
    lemma_find_prefix_offset(s, c, start, cut, 0);
}

/// `find_from` over a cut prefix, position by position.
proof fn lemma_find_prefix_offset(s: Seq<char>, c: char, start: int, cut: int, k: int)
    requires
        0 <= start <= cut <= s.len(),
        0 <= k,
    ensures
        ({
            let f = find_from(s, c, start + k);
            let g = find_from(s.subrange(start, cut), c, k);
            &&& (0 <= f < cut ==> g == f - start)
            &&& ((f == -1 || f >= cut) ==> g == -1)
        }),
    decreases cut - start - k,
{
    let pre = s.subrange(start, cut);
    lemma_find_bounds(s, c, if start + k <= s.len() { start + k } else { s.len() as int });
    if start + k < cut {
        assert(pre[k] == s[start + k]);
        if s[start + k] != c {
            lemma_find_prefix_offset(s, c, start, cut, k + 1);
        }
    } else {
        // the prefix is exhausted; a hit of f can only lie at or past cut
        lemma_find_bounds(s, c, if start + k <= s.len() { start + k } else { s.len() as int });
    }
}

} // verus!
