use vstd::prelude::*;

verus! {

broadcast use vstd::string::group_string_axioms;

/// The characters of `s`, in order.
pub fn chars_of(s: &str) -> (v: Vec<char>)
    ensures
        v@ == s@,
{
    let mut v: Vec<char> = Vec::new();
    for c in it: s.chars()
        invariant
            v@ == it.seq().take(it.index() as int),
            it.seq() == s@,
    {
        v.push(c);
    }
    v
}

/// Appends one character to a `String` (`String::push`).
#[verifier::external_body]
pub(crate) fn push_char(s: &mut String, c: char)
    ensures
        final(s)@ == old(s)@.push(c),
{
    s.push(c)
}

/// The `String` made of the characters `v`.
pub fn string_of(v: &Vec<char>) -> (s: String)
    ensures
        s@ == v@,
{
    let mut s = String::new();
    for i in 0..v.len()
        invariant
            s@ == v@.take(i as int),
    {
        push_char(&mut s, v[i]);
        assert(v@.take(i + 1) == v@.take(i as int).push(v@[i as int]));
    }
    assert(v@.take(v.len() as int) == v@);
    s
}

/// Whether two character sequences are equal.
pub fn same_chars(a: &Vec<char>, b: &Vec<char>) -> (res: bool)
    ensures
        res == (a@ == b@),
{
    if a.len() != b.len() {
        return false;
    }
    for i in 0..a.len()
        invariant
            a@.len() == b@.len(),
            forall|j: int| 0 <= j < i ==> a@[j] == b@[j],
    {
        if a[i] != b[i] {
            return false;
        }
    }
    assert(a@ =~= b@);
    true
}

/// Whether `a` and `b` hold the same text.
pub fn same_text(a: &str, b: &str) -> (res: bool)
    ensures
        res == (a@ == b@),
{
    same_chars(&chars_of(a), &chars_of(b))
}

/// The Unicode `White_Space` property, which `str::trim` and `char::is_whitespace` use.
pub open spec fn is_white_space(c: char) -> bool {
    let u = c as u32;
    ||| 0x09 <= u <= 0x0d
    ||| u == 0x20
    ||| u == 0x85
    ||| u == 0xa0
    ||| u == 0x1680
    ||| 0x2000 <= u <= 0x200a
    ||| u == 0x2028
    ||| u == 0x2029
    ||| u == 0x202f
    ||| u == 0x205f
    ||| u == 0x3000
}

/// Whether `c` is white space.
pub fn white_space(c: char) -> (res: bool)
    ensures
        res == is_white_space(c),
{
    let u: u32 = c as u32;
    (0x09 <= u && u <= 0x0d) || u == 0x20 || u == 0x85 || u == 0xa0 || u == 0x1680 || (0x2000
        <= u && u <= 0x200a) || u == 0x2028 || u == 0x2029 || u == 0x202f || u == 0x205f || u
        == 0x3000
}

/// `s` without its leading white space.
pub open spec fn trim_start(s: Seq<char>) -> Seq<char>
    decreases s.len(),
{
    if s.len() > 0 && is_white_space(s[0]) {
        trim_start(s.drop_first())
    } else {
        s
    }
}

/// `s` without its trailing white space.
pub open spec fn trim_end(s: Seq<char>) -> Seq<char>
    decreases s.len(),
{
    if s.len() > 0 && is_white_space(s.last()) {
        trim_end(s.drop_last())
    } else {
        s
    }
}

/// `s` without leading and trailing white space, as `str::trim` gives it.
pub open spec fn trim(s: Seq<char>) -> Seq<char> {
    trim_end(trim_start(s))
}

proof fn lemma_trim_start(s: Seq<char>)
    ensures
        trim_start(s).len() > 0 ==> !is_white_space(trim_start(s)[0]),
        s.len() >= trim_start(s).len(),
        trim_start(s) == s.skip(s.len() - trim_start(s).len()),
    decreases s.len(),
{
    if s.len() > 0 && is_white_space(s[0]) {
        lemma_trim_start(s.drop_first());
        assert(s.drop_first().skip(s.drop_first().len() - trim_start(s).len()) =~= s.skip(
            s.len() - trim_start(s).len(),
        ));
    } else {
        assert(s.skip(0) =~= s);
    }
}

proof fn lemma_trim_end(s: Seq<char>)
    ensures
        trim_end(s).len() > 0 ==> !is_white_space(trim_end(s).last()),
        trim_end(s).len() <= s.len(),
        trim_end(s) == s.take(trim_end(s).len() as int),
    decreases s.len(),
{
    if s.len() > 0 && is_white_space(s.last()) {
        lemma_trim_end(s.drop_last());
        assert(s.drop_last().take(trim_end(s).len() as int) =~= s.take(trim_end(s).len() as int));
    } else {
        assert(s.take(s.len() as int) =~= s);
    }
}

/// A trimmed text that is not empty begins and ends with a character that
/// is not white space.
pub proof fn lemma_trim_ends(s: Seq<char>)
    ensures
        trim(s).len() > 0 ==> !is_white_space(trim(s)[0]) && !is_white_space(trim(s).last()),
{
    lemma_trim_start(s);
    lemma_trim_end(trim_start(s));
    if trim(s).len() > 0 {
        assert(trim(s)[0] == trim_start(s)[0]);
    }
}

/// Every line that `nonblank_lines` gives is not empty, and neither begins
/// nor ends with white space.
pub proof fn lemma_nonblank_lines(s: Seq<char>)
    ensures
        forall|i: int|
            0 <= i < nonblank_lines(s).len() ==> (#[trigger] nonblank_lines(s)[i]).len() > 0
                && !is_white_space(nonblank_lines(s)[i][0]) && !is_white_space(
                nonblank_lines(s)[i].last(),
            ),
{
    lemma_nonblank_trimmed(split_lines(s));
}

proof fn lemma_nonblank_trimmed(pieces: Seq<Seq<char>>)
    ensures
        forall|i: int|
            0 <= i < nonblank_trimmed(pieces).len() ==> (#[trigger] nonblank_trimmed(
                pieces,
            )[i]).len() > 0 && !is_white_space(nonblank_trimmed(pieces)[i][0]) && !is_white_space(
                nonblank_trimmed(pieces)[i].last(),
            ),
    decreases pieces.len(),
{
    if pieces.len() > 0 {
        lemma_nonblank_trimmed(pieces.drop_last());
        lemma_trim_ends(pieces.last());
        let before = nonblank_trimmed(pieces.drop_last());
        let all = nonblank_trimmed(pieces);
        assert forall|i: int| 0 <= i < all.len() implies (#[trigger] all[i]).len() > 0
            && !is_white_space(all[i][0]) && !is_white_space(all[i].last()) by {
            if i < before.len() {
                assert(all[i] == before[i]);
            }
        }
    }
}

/// Trimming twice is trimming once.
pub proof fn lemma_trim_idempotent(s: Seq<char>)
    ensures
        trim(trim(s)) == trim(s),
{
    let t = trim(s);
    lemma_trim_ends(s);
    if t.len() > 0 {
        assert(trim_start(t) == t);
        assert(trim_end(t) == t);
    } else {
        assert(trim_start(t) == t);
    }
}

/// Trimming only takes characters away at both ends: whatever occurs in the
/// trimmed text occurs in the text.
pub proof fn lemma_trim_keeps_occurrences(s: Seq<char>, p: Seq<char>)
    ensures
        contains(trim(s), p) ==> contains(s, p),
{
    lemma_trim_start(s);
    lemma_trim_end(trim_start(s));
    let k = s.len() - trim_start(s).len();
    let t = trim(s);
    if contains(t, p) {
        let i = choose|i: int| 0 <= i <= t.len() && #[trigger] starts_with(t.skip(i), p);
        assert(t =~= s.subrange(k, k + t.len()));
        assert(s.skip(k + i).subrange(0, p.len() as int) =~= t.skip(i).subrange(0, p.len() as int));
        assert(starts_with(s.skip(k + i), p));
    }
}

/// The characters of `v` without leading and trailing white space.
pub fn trimmed(v: &Vec<char>) -> (res: Vec<char>)
    ensures
        res@ == trim(v@),
{
    let n: usize = v.len();
    let mut start: usize = 0;
    assert(v@.subrange(0, n as int) =~= v@);
    while start < n && white_space(v[start])
        invariant
            start <= n == v@.len(),
            trim_start(v@) == trim_start(v@.subrange(start as int, n as int)),
        decreases n - start,
    {
        assert(v@.subrange(start as int, n as int).drop_first() =~= v@.subrange(
            start + 1,
            n as int,
        ));
        start = start + 1;
    }
    let ghost rest = v@.subrange(start as int, n as int);
    assert(trim_start(rest) == rest);
    let mut end: usize = n;
    while end > start && white_space(v[end - 1])
        invariant
            start <= end <= n == v@.len(),
            rest == v@.subrange(start as int, n as int),
            trim_end(rest) == trim_end(v@.subrange(start as int, end as int)),
        decreases end - start,
    {
        assert(v@.subrange(start as int, end as int).drop_last() =~= v@.subrange(
            start as int,
            end - 1,
        ));
        end = end - 1;
    }
    let mut res: Vec<char> = Vec::new();
    let mut i: usize = start;
    while i < end
        invariant
            start <= i <= end <= n == v@.len(),
            res@ == v@.subrange(start as int, i as int),
        decreases end - i,
    {
        res.push(v[i]);
        assert(v@.subrange(start as int, i + 1) =~= v@.subrange(start as int, i as int).push(
            v@[i as int],
        ));
        i = i + 1;
    }
    res
}

/// Whether `s` begins with `p`.
pub open spec fn starts_with(s: Seq<char>, p: Seq<char>) -> bool {
    p.len() <= s.len() && s.subrange(0, p.len() as int) == p
}

/// Whether `p` occurs in `s`, as `str::contains` with a string pattern tells.
pub open spec fn contains(s: Seq<char>, p: Seq<char>) -> bool {
    exists|i: int| 0 <= i <= s.len() && #[trigger] starts_with(s.skip(i), p)
}

/// The part of `s` before the first occurrence of `p`: the first piece that
/// `str::split` gives; all of `s` where `p` does not occur.
pub open spec fn before_first(s: Seq<char>, p: Seq<char>) -> Seq<char>
    decreases s.len(),
{
    if starts_with(s, p) || s.len() == 0 {
        Seq::empty()
    } else {
        seq![s[0]] + before_first(s.drop_first(), p)
    }
}

/// Splitting at a non-empty pattern: the first piece is a prefix of `s` in
/// which the pattern does not occur; where the pattern occurs in `s`, it
/// starts right after the piece; where it does not, the piece is all of `s`.
pub proof fn lemma_before_first(s: Seq<char>, p: Seq<char>)
    requires
        p.len() > 0,
    ensures
        starts_with(s, before_first(s, p)),
        !contains(before_first(s, p), p),
        contains(s, p) ==> starts_with(s.skip(before_first(s, p).len() as int), p),
        !contains(s, p) ==> before_first(s, p) == s,
    decreases s.len(),
{
    let piece = before_first(s, p);
    if starts_with(s, p) {
        assert(s.subrange(0, 0) =~= piece);
        assert(s.skip(0) =~= s);
        assert(!contains(piece, p)) by {
            assert forall|i: int| 0 <= i <= piece.len() implies !#[trigger] starts_with(
                piece.skip(i),
                p,
            ) by {}
        }
        assert(contains(s, p)) by {
            assert(starts_with(s.skip(0), p));
        }
    } else if s.len() == 0 {
        assert(s =~= piece);
        assert(s.subrange(0, 0) =~= piece);
        assert(!contains(s, p)) by {
            assert forall|i: int| 0 <= i <= s.len() implies !#[trigger] starts_with(
                s.skip(i),
                p,
            ) by {}
        }
    } else {
        let rest = s.drop_first();
        let rest_piece = before_first(rest, p);
        lemma_before_first(rest, p);
        assert(piece == seq![s[0]] + rest_piece);
        assert(piece.len() <= s.len());
        assert(s.subrange(0, piece.len() as int) =~= piece) by {
            assert(rest.subrange(0, rest_piece.len() as int) == rest_piece);
            assert forall|k: int| 0 <= k < piece.len() implies s.subrange(
                0,
                piece.len() as int,
            )[k] == piece[k] by {
                if k > 0 {
                    assert(rest.subrange(0, rest_piece.len() as int)[k - 1] == rest_piece[k - 1]);
                }
            }
        }
        assert forall|i: int| 0 <= i <= piece.len() implies !#[trigger] starts_with(
            piece.skip(i),
            p,
        ) by {
            if i == 0 {
                if starts_with(piece.skip(0), p) {
                    assert(piece.skip(0) =~= piece);
                    assert(s.subrange(0, p.len() as int) =~= p) by {
                        assert forall|k: int| 0 <= k < p.len() implies s.subrange(
                            0,
                            p.len() as int,
                        )[k] == p[k] by {
                            assert(piece.subrange(0, p.len() as int)[k] == p[k]);
                            assert(s.subrange(0, piece.len() as int)[k] == piece[k]);
                        }
                    }
                }
            } else {
                assert(piece.skip(i) =~= rest_piece.skip(i - 1));
                assert(!starts_with(rest_piece.skip(i - 1), p));
            }
        }
        if contains(s, p) {
            let i = choose|i: int| 0 <= i <= s.len() && #[trigger] starts_with(s.skip(i), p);
            if i == 0 {
                assert(s.skip(0) =~= s);
            }
            assert(s.skip(i) =~= rest.skip(i - 1));
            assert(starts_with(rest.skip(i - 1), p));
            assert(s.skip(piece.len() as int) =~= rest.skip(rest_piece.len() as int));
        } else {
            assert(!contains(rest, p)) by {
                assert forall|i: int| 0 <= i <= rest.len() implies !#[trigger] starts_with(
                    rest.skip(i),
                    p,
                ) by {
                    assert(s.skip(i + 1) =~= rest.skip(i));
                    assert(!starts_with(s.skip(i + 1), p));
                }
            }
            assert(piece =~= s);
        }
    }
}

/// Whether `p` occurs in `s` at position `i`.
pub fn occurs_at(s: &Vec<char>, p: &Vec<char>, i: usize) -> (res: bool)
    requires
        i <= s@.len(),
    ensures
        res == starts_with(s@.skip(i as int), p@),
{
    if p.len() > s.len() - i {
        return false;
    }
    let m: usize = p.len();
    let mut k: usize = 0;
    while k < m
        invariant
            m == p@.len(),
            k <= m,
            i + m <= s.len(),
            forall|j: int| 0 <= j < k ==> s@[i + j] == p@[j],
        decreases m - k,
    {
        if s[i + k] != p[k] {
            assert(s@.skip(i as int).subrange(0, p@.len() as int)[k as int] != p@[k as int]);
            return false;
        }
        k = k + 1;
    }
    assert(s@.skip(i as int).subrange(0, p@.len() as int) =~= p@);
    true
}

/// Whether `p` occurs in `s`.
pub fn contains_chars(s: &Vec<char>, p: &Vec<char>) -> (res: bool)
    ensures
        res == contains(s@, p@),
{
    let mut i: usize = 0;
    while i < s.len()
        invariant
            i <= s@.len(),
            forall|j: int| 0 <= j < i ==> !#[trigger] starts_with(s@.skip(j), p@),
        decreases s@.len() - i,
    {
        if occurs_at(s, p, i) {
            return true;
        }
        i = i + 1;
    }
    occurs_at(s, p, i)
}

/// The part of `s` before the first occurrence of `p`.
pub fn prefix_before(s: &Vec<char>, p: &Vec<char>) -> (res: Vec<char>)
    ensures
        res@ == before_first(s@, p@),
{
    let mut res: Vec<char> = Vec::new();
    let mut i: usize = 0;
    assert(s@.skip(0) =~= s@);
    while i < s.len() && !occurs_at(s, p, i)
        invariant
            i <= s@.len(),
            before_first(s@, p@) == res@ + before_first(s@.skip(i as int), p@),
        decreases s@.len() - i,
    {
        assert(s@.skip(i as int).drop_first() =~= s@.skip(i + 1));
        assert(res@.push(s@[i as int]) + before_first(s@.skip(i + 1), p@) =~= res@ + (seq![
            s@[i as int],
        ] + before_first(s@.skip(i + 1), p@)));
        res.push(s[i]);
        i = i + 1;
    }
    assert(before_first(s@.skip(i as int), p@) =~= Seq::<char>::empty());
    assert(res@ + Seq::<char>::empty() =~= res@);
    res
}

/// `s` with every `c` replaced by `r`, as `str::replace` gives it for a
/// one-character pattern.
pub open spec fn replace_char(s: Seq<char>, c: char, r: Seq<char>) -> Seq<char>
    decreases s.len(),
{
    if s.len() == 0 {
        Seq::empty()
    } else {
        replace_char(s.drop_last(), c, r) + if s.last() == c {
            r
        } else {
            seq![s.last()]
        }
    }
}

/// The characters of `s` with every `c` replaced by `r`.
pub fn replaced_char(s: &Vec<char>, c: char, r: &Vec<char>) -> (res: Vec<char>)
    ensures
        res@ == replace_char(s@, c, r@),
{
    let mut res: Vec<char> = Vec::new();
    for i in 0..s.len()
        invariant
            res@ == replace_char(s@.take(i as int), c, r@),
    {
        assert(s@.take(i + 1).drop_last() =~= s@.take(i as int));
        if s[i] == c {
            for k in 0..r.len()
                invariant
                    res@ == replace_char(s@.take(i as int), c, r@) + r@.take(k as int),
            {
                assert(r@.take(k + 1) =~= r@.take(k as int).push(r@[k as int]));
                res.push(r[k]);
            }
            assert(r@.take(r@.len() as int) =~= r@);
        } else {
            res.push(s[i]);
        }
    }
    assert(s@.take(s@.len() as int) =~= s@);
    res
}

/// Whether every `c` in `t` stands right behind a backslash.
pub open spec fn escaped_everywhere(t: Seq<char>, c: char) -> bool {
    forall|i: int| 0 <= i < t.len() && #[trigger] t[i] == c ==> i > 0 && t[i - 1] == '\\'
}

proof fn lemma_replace_char_split(s: Seq<char>, c: char, r: Seq<char>)
    requires
        s.len() > 0,
    ensures
        replace_char(s, c, r) == replace_char(s.drop_last(), c, r) + if s.last() == c {
            r
        } else {
            seq![s.last()]
        },
{
}

/// Putting a backslash before every `c` leaves no `c` without one.
pub proof fn lemma_replace_char_escapes(s: Seq<char>, c: char)
    requires
        c != '\\',
    ensures
        escaped_everywhere(replace_char(s, c, seq!['\\', c]), c),
    decreases s.len(),
{
    if s.len() > 0 {
        lemma_replace_char_escapes(s.drop_last(), c);
        let before = replace_char(s.drop_last(), c, seq!['\\', c]);
        let t = replace_char(s, c, seq!['\\', c]);
        lemma_replace_char_split(s, c, seq!['\\', c]);
        assert forall|i: int| 0 <= i < t.len() && #[trigger] t[i] == c implies i > 0 && t[i
            - 1] == '\\' by {
            if i < before.len() {
                assert(t[i] == before[i]);
                assert(t[i - 1] == before[i - 1]);
            } else if s.last() == c {
                if i == before.len() {
                    assert(t[i] == '\\');
                } else {
                    assert(t[i - 1] == '\\');
                }
            }
        }
    }
}

/// Escaping another character `d` (not a backslash) keeps every `c` behind
/// its backslash.
pub proof fn lemma_replace_char_keeps_escapes(t: Seq<char>, c: char, d: char)
    requires
        escaped_everywhere(t, c),
        c != d,
        c != '\\',
        d != '\\',
    ensures
        escaped_everywhere(replace_char(t, d, seq!['\\', d]), c),
    decreases t.len(),
{
    if t.len() > 0 {
        let front = t.drop_last();
        assert(escaped_everywhere(front, c)) by {
            assert forall|i: int| 0 <= i < front.len() && #[trigger] front[i] == c implies i > 0
                && front[i - 1] == '\\' by {
                assert(t[i] == front[i]);
            }
        }
        lemma_replace_char_keeps_escapes(front, c, d);
        let before = replace_char(front, d, seq!['\\', d]);
        let u = replace_char(t, d, seq!['\\', d]);
        lemma_replace_char_split(t, d, seq!['\\', d]);
        assert forall|i: int| 0 <= i < u.len() && #[trigger] u[i] == c implies i > 0 && u[i
            - 1] == '\\' by {
            if i < before.len() {
                assert(u[i] == before[i]);
                assert(u[i - 1] == before[i - 1]);
            } else if t.last() == d {
                assert(u[i] == '\\' || u[i] == d);
            } else {
                assert(i == before.len());
                assert(t[t.len() - 1] == c);
                assert(t.len() >= 2 && t[t.len() - 2] == '\\');
                lemma_replace_char_split(front, d, seq!['\\', d]);
                assert(front.last() == '\\');
                assert(before.last() == '\\');
                assert(u[i - 1] == before[before.len() - 1]);
            }
        }
    }
}

/// The pieces of `s` between newline characters, as `str::split('\n')` gives
/// them: at least one, possibly empty.
pub open spec fn split_lines(s: Seq<char>) -> Seq<Seq<char>>
    decreases s.len(),
{
    if s.len() == 0 {
        seq![Seq::empty()]
    } else {
        let before = split_lines(s.drop_last());
        if s.last() == '\n' {
            before.push(Seq::empty())
        } else {
            before.update(before.len() - 1, before.last().push(s.last()))
        }
    }
}

/// The trimmed pieces among `pieces` that are not blank, in order.
pub open spec fn nonblank_trimmed(pieces: Seq<Seq<char>>) -> Seq<Seq<char>>
    decreases pieces.len(),
{
    if pieces.len() == 0 {
        Seq::empty()
    } else {
        let before = nonblank_trimmed(pieces.drop_last());
        if trim(pieces.last()).len() > 0 {
            before.push(trim(pieces.last()))
        } else {
            before
        }
    }
}

/// The lines of `s` that are not blank, each trimmed: what
/// `s.lines().filter(|l| !l.trim().is_empty())` followed by `trim` on each
/// line gives (a line's `\r` ending, and a last empty line, are white space
/// that the filter and the trim remove in any case).
pub open spec fn nonblank_lines(s: Seq<char>) -> Seq<Seq<char>> {
    nonblank_trimmed(split_lines(s))
}

proof fn lemma_split_lines_nonempty(s: Seq<char>)
    ensures
        split_lines(s).len() >= 1,
    decreases s.len(),
{
    if s.len() > 0 {
        lemma_split_lines_nonempty(s.drop_last());
    }
}

/// A vector of characters is its own deep view.
pub proof fn lemma_chars_deep_view(v: &Vec<char>)
    ensures
        v.deep_view() == v@,
{
    assert(v.deep_view() =~= v@);
}

/// The lines of `s` that are not blank, each trimmed.
pub fn nonblank_lines_of(s: &Vec<char>) -> (res: Vec<Vec<char>>)
    ensures
        res.deep_view() == nonblank_lines(s@),
{
    let mut done: Vec<Vec<char>> = Vec::new();
    let mut current: Vec<char> = Vec::new();
    for i in 0..s.len()
        invariant
            split_lines(s@.take(i as int)).len() >= 1,
            done.deep_view() == nonblank_trimmed(split_lines(s@.take(i as int)).drop_last()),
            current@ == split_lines(s@.take(i as int)).last(),
    {
        let ghost before = split_lines(s@.take(i as int));
        assert(s@.take(i + 1).drop_last() =~= s@.take(i as int));
        assert(s@.take(i + 1).last() == s@[i as int]);
        if s[i] == '\n' {
            let t = trimmed(&current);
            assert(before.push(Seq::<char>::empty()).drop_last() =~= before);
            assert(before =~= before.drop_last().push(before.last()));
            if t.len() > 0 {
                let ghost old_done = done.deep_view();
                proof {
                    lemma_chars_deep_view(&t);
                }
                done.push(t);
                assert(done.deep_view() =~= old_done.push(t@));
            }
            current = Vec::new();
        } else {
            current.push(s[i]);
            let ghost after = before.update(before.len() - 1, before.last().push(s@[i as int]));
            assert(after.drop_last() =~= before.drop_last());
        }
    }
    assert(s@.take(s@.len() as int) =~= s@);
    let ghost all = split_lines(s@);
    assert(all =~= all.drop_last().push(all.last()));
    let t = trimmed(&current);
    if t.len() > 0 {
        let ghost old_done = done.deep_view();
        proof {
            lemma_chars_deep_view(&t);
        }
        done.push(t);
        assert(done.deep_view() =~= old_done.push(t@));
    }
    done
}

/// The character of decimal digit `d`.
pub open spec fn digit_char(d: int) -> char {
    if d == 0 {
        '0'
    } else if d == 1 {
        '1'
    } else if d == 2 {
        '2'
    } else if d == 3 {
        '3'
    } else if d == 4 {
        '4'
    } else if d == 5 {
        '5'
    } else if d == 6 {
        '6'
    } else if d == 7 {
        '7'
    } else if d == 8 {
        '8'
    } else {
        '9'
    }
}

/// The decimal digits of `n`, without leading zeros, as `Display` writes an
/// unsigned integer.
pub open spec fn decimal(n: nat) -> Seq<char>
    decreases n,
{
    if n < 10 {
        seq![digit_char(n as int)]
    } else {
        decimal(n / 10).push(digit_char((n % 10) as int))
    }
}

proof fn lemma_digit_char(d: int)
    requires
        0 <= d < 10,
    ensures
        is_digit(digit_char(d)),
        digit_value(digit_char(d)) == d,
{
}

/// The decimal digits of `n` are digits, and read back as `n`.
pub proof fn lemma_decimal_reads_back(n: nat)
    ensures
        all_digits(decimal(n)),
        digits_value(decimal(n)) == n,
    decreases n,
{
    if n < 10 {
        lemma_digit_char(n as int);
        assert(decimal(n).drop_last() =~= Seq::<char>::empty());
        assert(digits_value(decimal(n).drop_last()) == 0);
        assert(decimal(n).last() == digit_char(n as int));
    } else {
        lemma_decimal_reads_back(n / 10);
        lemma_digit_char((n % 10) as int);
        assert(decimal(n).drop_last() =~= decimal(n / 10));
        assert(decimal(n).last() == digit_char((n % 10) as int));
        assert(digits_value(decimal(n)) == digits_value(decimal(n / 10)) * 10 + (n % 10));
        let d = decimal(n);
        assert forall|i: int| 0 <= i < d.len() implies is_digit(#[trigger] d[i]) by {
            if i < d.len() - 1 {
                assert(d[i] == decimal(n / 10)[i]);
            }
        }
    }
}

fn digit(d: u64) -> (c: char)
    requires
        d < 10,
    ensures
        c == digit_char(d as int),
{
    if d == 0 {
        '0'
    } else if d == 1 {
        '1'
    } else if d == 2 {
        '2'
    } else if d == 3 {
        '3'
    } else if d == 4 {
        '4'
    } else if d == 5 {
        '5'
    } else if d == 6 {
        '6'
    } else if d == 7 {
        '7'
    } else if d == 8 {
        '8'
    } else {
        '9'
    }
}

/// The decimal digits of `n`.
pub fn decimal_chars(n: u64) -> (v: Vec<char>)
    ensures
        v@ == decimal(n as nat),
    decreases n,
{
    if n < 10 {
        let mut v: Vec<char> = Vec::new();
        v.push(digit(n));
        assert(v@ =~= seq![digit_char(n as int)]);
        v
    } else {
        let mut v = decimal_chars(n / 10);
        v.push(digit(n % 10));
        v
    }
}

/// Whether `c` is an ASCII decimal digit.
pub open spec fn is_digit(c: char) -> bool {
    '0' <= c <= '9'
}

/// The value of decimal digit character `c`.
pub open spec fn digit_value(c: char) -> int {
    (c as int) - ('0' as int)
}

/// The value of the decimal digits `d`.
pub open spec fn digits_value(d: Seq<char>) -> int
    decreases d.len(),
{
    if d.len() == 0 {
        0
    } else {
        digits_value(d.drop_last()) * 10 + digit_value(d.last())
    }
}

/// Whether every character of `d` is an ASCII decimal digit.
pub open spec fn all_digits(d: Seq<char>) -> bool {
    forall|i: int| 0 <= i < d.len() ==> is_digit(#[trigger] d[i])
}

/// `s` without one leading `+`, if it has one.
pub open spec fn without_plus(s: Seq<char>) -> Seq<char> {
    if s.len() > 0 && s[0] == '+' {
        s.drop_first()
    } else {
        s
    }
}

/// What `str::parse::<u8>` gives: an optional `+`, then one or more ASCII
/// digits whose value is at most 255.
pub open spec fn parsed_u8(s: Seq<char>) -> Option<u8> {
    let d = without_plus(s);
    if d.len() > 0 && all_digits(d) && digits_value(d) <= 255 {
        Some(digits_value(d) as u8)
    } else {
        None
    }
}

/// Reading back the decimal digits of a byte gives the byte.
pub proof fn lemma_parse_decimal_u8(n: u8)
    ensures
        parsed_u8(decimal(n as nat)) == Some(n),
{
    lemma_decimal_reads_back(n as nat);
    let d = decimal(n as nat);
    assert(d.len() > 0) by {
        if n >= 10 {
            assert(d == decimal((n / 10) as nat).push(digit_char((n % 10) as int)));
        }
    }
    assert(is_digit(d[0]));
    assert(without_plus(d) == d);
}

proof fn lemma_digits_value_nonneg(d: Seq<char>)
    requires
        forall|i: int| 0 <= i < d.len() ==> is_digit(#[trigger] d[i]),
    ensures
        digits_value(d) >= 0,
    decreases d.len(),
{
    if d.len() > 0 {
        lemma_digits_value_nonneg(d.drop_last());
        assert(is_digit(d[d.len() - 1]));
    }
}

/// Parses `s` as `str::parse::<u8>` does.
pub fn parse_u8(s: &Vec<char>) -> (res: Option<u8>)
    ensures
        res == parsed_u8(s@),
{
    let start: usize = if s.len() > 0 && s[0] == '+' {
        1
    } else {
        0
    };
    let ghost d = without_plus(s@);
    assert(d =~= s@.skip(start as int));
    if start >= s.len() {
        return None;
    }
    let mut value: u32 = 0;
    let mut i: usize = start;
    while i < s.len()
        invariant
            start <= i <= s@.len(),
            d == s@.skip(start as int),
            d == without_plus(s@),
            forall|j: int| start <= j < i ==> is_digit(#[trigger] s@[j]),
            value <= 256,
            value == if digits_value(s@.subrange(start as int, i as int)) < 256 {
                digits_value(s@.subrange(start as int, i as int))
            } else {
                256
            },
        decreases s@.len() - i,
    {
        let c = s[i];
        let ghost prefix = s@.subrange(start as int, i as int);
        let ghost next = s@.subrange(start as int, i + 1);
        assert(next.drop_last() =~= prefix);
        if c < '0' || c > '9' {
            assert(d[i - start] == c);
            assert(!is_digit(d[i - start]));
            return None;
        }
        let dv: u32 = (c as u32) - ('0' as u32);
        proof {
            assert forall|j: int| 0 <= j < prefix.len() implies is_digit(#[trigger] prefix[j]) by {
                assert(prefix[j] == s@[start + j]);
            }
            lemma_digits_value_nonneg(prefix);
        }
        if value >= 256 {
            assert(digits_value(next) >= 256) by (nonlinear_arith)
                requires
                    digits_value(next) == digits_value(prefix) * 10 + dv,
                    digits_value(prefix) >= 256,
                    dv >= 0,
            ;
            value = 256;
        } else {
            let v: u32 = value * 10 + dv;
            value = if v < 256 {
                v
            } else {
                256
            };
        }
        i = i + 1;
    }
    assert(s@.subrange(start as int, s@.len() as int) =~= d);
    assert forall|j: int| 0 <= j < d.len() implies is_digit(#[trigger] d[j]) by {
        assert(d[j] == s@[start + j]);
    }
    if value <= 255 {
        Some(value as u8)
    } else {
        None
    }
}

} // verus!
