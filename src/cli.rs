use vstd::prelude::*;
use vstd::string::StrSliceExecFns;

verus! {

/// Headers sent with every request, as name and value pairs with unique
/// names, in the order the names first appeared.
#[derive(Clone, Debug)]
pub struct HttpHeaders(pub Vec<(String, String)>);

/// Arguments of a request without a body.
#[derive(Clone, Debug)]
pub struct HttpArg {
    pub url: String,
}

/// Arguments of a request with a JSON body.
#[derive(Clone, Debug)]
pub struct HttpArgBody {
    pub url: String,
    pub body: String,
}

/// The request to repeat: its verb, with the fields that verb takes.
#[derive(Clone, Debug)]
pub enum HttpMethod {
    Get(HttpArg),
    Post(HttpArgBody),
    Patch(HttpArgBody),
    Put(HttpArgBody),
    Delete(HttpArg),
}

impl HttpMethod {
    pub open spec fn spec_url(&self) -> Seq<char> {
        match self {
            HttpMethod::Get(a) => a.url@,
            HttpMethod::Delete(a) => a.url@,
            HttpMethod::Post(a) => a.url@,
            HttpMethod::Patch(a) => a.url@,
            HttpMethod::Put(a) => a.url@,
        }
    }

    pub open spec fn spec_body(&self) -> Option<Seq<char>> {
        match self {
            HttpMethod::Get(_) => None,
            HttpMethod::Delete(_) => None,
            HttpMethod::Post(a) => Some(a.body@),
            HttpMethod::Patch(a) => Some(a.body@),
            HttpMethod::Put(a) => Some(a.body@),
        }
    }

    /// The URL the request goes to.
    pub fn url(&self) -> (r: &String)
        ensures
            r@ == self.spec_url(),
    {
        match self {
            HttpMethod::Get(a) => &a.url,
            HttpMethod::Delete(a) => &a.url,
            HttpMethod::Post(a) => &a.url,
            HttpMethod::Patch(a) => &a.url,
            HttpMethod::Put(a) => &a.url,
        }
    }

    /// The body sent with the request, for the verbs that take one.
    pub fn body(&self) -> (r: Option<&String>)
        ensures
            match r {
                None => self.spec_body() is None,
                Some(b) => self.spec_body() == Some(b@),
            },
    {
        match self {
            HttpMethod::Get(_) => None,
            HttpMethod::Delete(_) => None,
            HttpMethod::Post(a) => Some(&a.body),
            HttpMethod::Patch(a) => Some(&a.body),
            HttpMethod::Put(a) => Some(&a.body),
        }
    }
}

/// The settings of a run as the command line gives them.
#[derive(Debug)]
pub struct Cli {
    pub method: HttpMethod,
    pub threads: usize,
    pub requests: usize,
    pub req_rate: Option<u16>,
    pub headers: Option<HttpHeaders>,
}


/// Whether `c` has Unicode's White_Space property, as `char::is_whitespace`
/// decides it.
pub open spec fn is_space(c: char) -> bool {
    let u = c as u32;
    ||| 0x09 <= u <= 0x0d
    ||| u == 0x20
    ||| u == 0x85
    ||| u == 0xa0
    ||| u == 0x1680
    ||| 0x2000 <= u <= 0x200a
    ||| u == 0x2028
    ||| u == 0x2029
    ||| u == 0x202f
    ||| u == 0x205f
    ||| u == 0x3000
}

fn is_whitespace(c: char) -> (r: bool)
    ensures
        r == is_space(c),
{
    let u = c as u32;
    (0x09 <= u && u <= 0x0d) || u == 0x20 || u == 0x85 || u == 0xa0 || u == 0x1680 || (0x2000 <= u
        && u <= 0x200a) || u == 0x2028 || u == 0x2029 || u == 0x202f || u == 0x205f || u == 0x3000
}

/// The pieces of `s` between the occurrences of `sep`: one more piece than
/// there are separators, empty pieces included.
pub open spec fn split_on(s: Seq<char>, sep: char) -> Seq<Seq<char>>
    decreases s.len(),
{
    if s.len() == 0 {
        seq![Seq::empty()]
    } else {
        let p = split_on(s.drop_last(), sep);
        if s.last() == sep {
            p.push(Seq::empty())
        } else {
            p.update(p.len() - 1, p.last().push(s.last()))
        }
    }
}

proof fn lemma_split_on_nonempty(s: Seq<char>, sep: char)
    ensures
        split_on(s, sep).len() >= 1,
    decreases s.len(),
{
    if s.len() > 0 {
        lemma_split_on_nonempty(s.drop_last(), sep);
    }
}

/// `s` without the white space at its start.
pub open spec fn trim_start(s: Seq<char>) -> Seq<char>
    decreases s.len(),
{
    if s.len() > 0 && is_space(s[0]) {
        trim_start(s.drop_first())
    } else {
        s
    }
}

/// `s` without the white space at its end.
pub open spec fn trim_end(s: Seq<char>) -> Seq<char>
    decreases s.len(),
{
    if s.len() > 0 && is_space(s.last()) {
        trim_end(s.drop_last())
    } else {
        s
    }
}

/// `s` without white space at either end.
pub open spec fn trim(s: Seq<char>) -> Seq<char> {
    trim_end(trim_start(s))
}

/// The ranges of the pieces of `s[from..to]` between occurrences of `sep`.
fn split_ranges(s: &str, from: usize, to: usize, sep: char) -> (r: Vec<(usize, usize)>)
    requires
        from <= to <= s@.len(),
    ensures
        r@.len() == split_on(s@.subrange(from as int, to as int), sep).len(),
        forall|k: int| 0 <= k < r@.len() ==> {
            let (a, b) = #[trigger] r@[k];
            &&& from <= a <= b <= to
            &&& s@.subrange(a as int, b as int) == split_on(s@.subrange(from as int, to as int), sep)[k]
        },
{
    let mut ranges: Vec<(usize, usize)> = Vec::new();
    let mut start = from;
    let mut i = from;
    while i < to
        invariant
            from <= start <= i <= to <= s@.len(),
            ranges@.len() + 1 == split_on(s@.subrange(from as int, i as int), sep).len(),
            forall|k: int| 0 <= k < ranges@.len() ==> {
                let (a, b) = #[trigger] ranges@[k];
                &&& from <= a <= b <= i
                &&& s@.subrange(a as int, b as int) == split_on(s@.subrange(from as int, i as int), sep)[k]
            },
            s@.subrange(start as int, i as int) == split_on(s@.subrange(from as int, i as int), sep).last(),
        decreases to - i,
    {
        let ghost cur = split_on(s@.subrange(from as int, i as int), sep);
        let ghost next_sub = s@.subrange(from as int, i + 1);
        assert(next_sub.drop_last() =~= s@.subrange(from as int, i as int));
        assert(next_sub.last() == s@[i as int]);
        let c = s.get_char(i);
        if c == sep {
            ranges.push((start, i));
            start = i + 1;
            assert(s@.subrange(start as int, i + 1) =~= Seq::<char>::empty());
        } else {
            assert(s@.subrange(start as int, i + 1) =~= s@.subrange(start as int, i as int).push(c));
        }
        i += 1;
    }
    proof {
        lemma_split_on_nonempty(s@.subrange(from as int, to as int), sep);
    }
    ranges.push((start, to));
    ranges
}

/// The range of `s[from..to]` that is left once white space is trimmed from
/// both ends.
fn trim_range(s: &str, from: usize, to: usize) -> (r: (usize, usize))
    requires
        from <= to <= s@.len(),
    ensures
        from <= r.0 <= r.1 <= to,
        s@.subrange(r.0 as int, r.1 as int) == trim(s@.subrange(from as int, to as int)),
{
    let mut lo = from;
    while lo < to && is_whitespace(s.get_char(lo))
        invariant
            from <= lo <= to <= s@.len(),
            trim_start(s@.subrange(from as int, to as int)) == trim_start(s@.subrange(lo as int, to as int)),
        decreases to - lo,
    {
        assert(s@.subrange(lo as int, to as int).drop_first() =~= s@.subrange(lo + 1, to as int));
        lo += 1;
    }
    assert(trim_start(s@.subrange(lo as int, to as int)) == s@.subrange(lo as int, to as int));
    let mut hi = to;
    while hi > lo && is_whitespace(s.get_char(hi - 1))
        invariant
            from <= lo <= hi <= to <= s@.len(),
            trim_end(s@.subrange(lo as int, to as int)) == trim_end(s@.subrange(lo as int, hi as int)),
        decreases hi - lo,
    {
        assert(s@.subrange(lo as int, hi as int).drop_last() =~= s@.subrange(lo as int, hi - 1));
        hi -= 1;
    }
    assert(trim_end(s@.subrange(lo as int, hi as int)) == s@.subrange(lo as int, hi as int));
    (lo, hi)
}


/// A header list that does not read as `name:value` pairs separated by
/// spaces.
#[derive(Clone, Copy, Debug, PartialEq, Eq, Structural)]
pub struct HeaderError;

/// Header names and values as text.
pub open spec fn pairs_view(v: Seq<(String, String)>) -> Seq<(Seq<char>, Seq<char>)> {
    v.map_values(|p: (String, String)| (p.0@, p.1@))
}

/// Position of the last pair named `k` in `m`, or -1.
pub open spec fn key_index(m: Seq<(Seq<char>, Seq<char>)>, k: Seq<char>) -> int
    decreases m.len(),
{
    if m.len() == 0 {
        -1
    } else if m.last().0 == k {
        m.len() - 1
    } else {
        key_index(m.drop_last(), k)
    }
}

/// `m` with `k` set to `v`: a pair already named `k` takes the new value in
/// place, otherwise the pair is added at the end.
pub open spec fn insert_header(m: Seq<(Seq<char>, Seq<char>)>, k: Seq<char>, v: Seq<char>) -> Seq<(Seq<char>, Seq<char>)> {
    if key_index(m, k) >= 0 {
        m.update(key_index(m, k), (k, v))
    } else {
        m.push((k, v))
    }
}

/// A piece `name:value`, with exactly one colon, as its trimmed name and
/// value.
pub open spec fn header_pair(p: Seq<char>) -> Option<(Seq<char>, Seq<char>)> {
    let parts = split_on(p, ':');
    if parts.len() == 2 {
        Some((trim(parts[0]), trim(parts[1])))
    } else {
        None
    }
}

/// The headers that the pieces give, set in order, or `None` if one of the
/// pieces is not a `name:value` pair.
pub open spec fn headers_from(pieces: Seq<Seq<char>>) -> Option<Seq<(Seq<char>, Seq<char>)>>
    decreases pieces.len(),
{
    if pieces.len() == 0 {
        Some(Seq::empty())
    } else {
        match headers_from(pieces.drop_last()) {
            None => None,
            Some(m) => match header_pair(pieces.last()) {
                None => None,
                Some(kv) => Some(insert_header(m, kv.0, kv.1)),
            },
        }
    }
}

/// The headers that the text `s` lists: `name:value` pairs separated by
/// single spaces.
pub open spec fn headers_of(s: Seq<char>) -> Option<Seq<(Seq<char>, Seq<char>)>> {
    headers_from(split_on(s, ' '))
}

fn insert_pair(map: &mut Vec<(String, String)>, key: String, value: String)
    ensures
        pairs_view(final(map)@) == insert_header(pairs_view(old(map)@), key@, value@),
{
    let ghost m = pairs_view(map@);
    let mut i: usize = map.len();
    assert(m.take(i as int) =~= m);
    while i > 0
        invariant
            i <= map@.len(),
            map@ == old(map)@,
            m == pairs_view(map@),
            key_index(m, key@) == key_index(m.take(i as int), key@),
        decreases i,
    {
        assert(m.take(i as int).drop_last() =~= m.take(i - 1));
        if map[i - 1].0 == key {
            assert(m.take(i as int).last().0 == key@);
            map.set(i - 1, (key, value));
            assert(pairs_view(map@) =~= m.update(i - 1, (key@, value@)));
            return;
        }
        i -= 1;
    }
    assert(m.take(0) =~= Seq::<(Seq<char>, Seq<char>)>::empty());
    map.push((key, value));
    assert(pairs_view(map@) =~= m.push((key@, value@)));
}

impl HttpHeaders {
    pub open spec fn view_pairs(&self) -> Seq<(Seq<char>, Seq<char>)> {
        pairs_view(self.0@)
    }

    /// Reads `name:value` pairs separated by single spaces, trimming each
    /// name and value; a later pair with a name already seen replaces its
    /// value.
    pub fn parse(s: &str) -> (r: Result<HttpHeaders, HeaderError>)
        ensures
            match headers_of(s@) {
                None => r is Err,
                Some(m) => r is Ok && r->Ok_0.view_pairs() == m,
            },
            r is Ok ==> unique_keys(r->Ok_0.view_pairs()),
    {
        proof {
            lemma_headers_unique(split_on(s@, ' '));
        }
        let n = s.unicode_len();
        assert(s@.subrange(0, n as int) =~= s@);
        let pieces = split_ranges(s, 0, n, ' ');
        let ghost ps = split_on(s@, ' ');
        let mut map: Vec<(String, String)> = Vec::new();
        let mut k: usize = 0;
        assert(ps.take(0) =~= Seq::<Seq<char>>::empty());
        assert(pairs_view(map@) =~= Seq::<(Seq<char>, Seq<char>)>::empty());
        while k < pieces.len()
            invariant
                n == s@.len(),
                ps == split_on(s@, ' '),
                pieces@.len() == ps.len(),
                forall|j: int| 0 <= j < pieces@.len() ==> {
                    let (a, b) = #[trigger] pieces@[j];
                    &&& 0 <= a <= b <= n
                    &&& s@.subrange(a as int, b as int) == ps[j]
                },
                k <= pieces@.len(),
                headers_from(ps.take(k as int)) == Some(pairs_view(map@)),
            decreases pieces@.len() - k,
        {
            let (a, b) = pieces[k];
            assert(ps.take(k + 1).drop_last() =~= ps.take(k as int));
            assert(ps.take(k + 1).last() == ps[k as int]);
            let parts = split_ranges(s, a, b, ':');
            if parts.len() != 2 {
                proof {
                    lemma_headers_from_fails(ps, (k + 1) as int);
                    assert(ps.take(ps.len() as int) =~= ps);
                }
                return Err(HeaderError);
            }
            let (ka, kb) = trim_range(s, parts[0].0, parts[0].1);
            let (va, vb) = trim_range(s, parts[1].0, parts[1].1);
            proof {
                let sub = s@.subrange(a as int, b as int);
                let (p0a, p0b) = parts@[0];
                let (p1a, p1b) = parts@[1];
                assert(s@.subrange(p0a as int, p0b as int) == split_on(sub, ':')[0]);
                assert(s@.subrange(p1a as int, p1b as int) == split_on(sub, ':')[1]);
            }
            let key = s.substring_char(ka, kb).to_owned();
            let value = s.substring_char(va, vb).to_owned();
            insert_pair(&mut map, key, value);
            k += 1;
        }
        assert(ps.take(pieces@.len() as int) =~= ps);
        Ok(HttpHeaders(map))
    }
}

/// No two pairs of `m` have the same name.
pub open spec fn unique_keys(m: Seq<(Seq<char>, Seq<char>)>) -> bool {
    forall|i: int, j: int| 0 <= i < j < m.len() ==> m[i].0 != m[j].0
}

proof fn lemma_key_index(m: Seq<(Seq<char>, Seq<char>)>, k: Seq<char>)
    ensures
        -1 <= key_index(m, k) < m.len(),
        key_index(m, k) >= 0 ==> m[key_index(m, k)].0 == k,
        key_index(m, k) < 0 ==> forall|i: int| 0 <= i < m.len() ==> m[i].0 != k,
    decreases m.len(),
{
    if m.len() > 0 {
        lemma_key_index(m.drop_last(), k);
        if m.last().0 != k && key_index(m, k) < 0 {
            assert forall|i: int| 0 <= i < m.len() implies m[i].0 != k by {
                if i < m.len() - 1 {
                    assert(m[i] == m.drop_last()[i]);
                }
            }
        }
    }
}

proof fn lemma_headers_unique(pieces: Seq<Seq<char>>)
    ensures
        headers_from(pieces) is Some ==> unique_keys(headers_from(pieces)->0),
    decreases pieces.len(),
{
    if pieces.len() > 0 {
        lemma_headers_unique(pieces.drop_last());
        if let Some(m) = headers_from(pieces.drop_last()) {
            if let Some(kv) = header_pair(pieces.last()) {
                lemma_key_index(m, kv.0);
                let r = insert_header(m, kv.0, kv.1);
                assert(unique_keys(r));
            }
        }
    }
}

impl std::str::FromStr for HttpHeaders {
    type Err = HeaderError;

    fn from_str(s: &str) -> Result<Self, Self::Err> {
        HttpHeaders::parse(s)
    }
}

proof fn lemma_headers_from_fails(ps: Seq<Seq<char>>, k: int)
    requires
        0 < k <= ps.len(),
        headers_from(ps.take(k)) is None,
    ensures
        headers_from(ps) is None,
    decreases ps.len() - k,
{
    if k < ps.len() {
        assert(ps.take(k + 1).drop_last() =~= ps.take(k));
        lemma_headers_from_fails(ps, k + 1);
    } else {
        assert(ps.take(k) =~= ps);
    }
}

} // verus!
