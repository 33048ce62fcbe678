//! String building blocks.
//!
//! Every function here is specified over the characters of its arguments
//! (`s@ : Seq<char>`), which is the model all names, keys and messages of this
//! crate are reasoned about in.

use vstd::prelude::*;

verus! {

/// `String::push` appends one character.
pub assume_specification[ String::push ](s: &mut String, c: char)
    ensures
        final(s)@ == old(s)@.push(c),
;

/// `str == str` compares the characters.
pub assume_specification[ <str as PartialEq<str>>::eq ](a: &str, b: &str) -> (r: bool)
    ensures
        r == (a@ == b@),
;

// ---- conversions -------------------------------------------------------------

/// The characters of `s`.
pub fn chars_of(s: &str) -> (r: Vec<char>)
    ensures
        r@ == s@,
{
    let mut out: Vec<char> = Vec::new();
    for c in it: s.chars()
        invariant
            out@ == it.seq().take(it.index()),
            it.seq() == s@,
    {
        out.push(c);
    }
    out
}

/// The string made of `chars`.
pub fn string_of(chars: &[char]) -> (r: String)
    ensures
        r@ == chars@,
{
    let mut out: String = String::new();
    for i in 0..chars.len()
        invariant
            out@ == chars@.take(i as int),
    {
        out.push(chars[i]);
    }
    out
}

/// The string made of the characters `chars[from..to]`.
pub fn string_of_range(chars: &[char], from: usize, to: usize) -> (r: String)
    requires
        from <= to <= chars@.len(),
    ensures
        r@ == chars@.subrange(from as int, to as int),
{
    let mut out: String = String::new();
    let mut i: usize = from;
    while i < to
        invariant
            from <= i <= to <= chars@.len(),
            out@ == chars@.subrange(from as int, i as int),
        decreases to - i,
    {
        out.push(chars[i]);
        i += 1;
    }
    out
}

/// The characters of each string, in order.
pub open spec fn views(names: Seq<String>) -> Seq<Seq<char>> {
    names.map_values(|s: String| s@)
}

/// The characters of an optional string.
pub open spec fn opt_view(s: Option<String>) -> Option<Seq<char>> {
    match s {
        Some(s) => Some(s@),
        None => None,
    }
}

// ---- comparison --------------------------------------------------------------

/// Whether the two strings hold the same characters.
pub fn same(a: &str, b: &str) -> (r: bool)
    ensures
        r == (a@ == b@),
{
    a.eq(b)
}

/// Whether two optional strings are both absent or hold the same characters.
pub fn same_opt(a: &Option<String>, b: &Option<String>) -> (r: bool)
    ensures
        r == (opt_view(*a) == opt_view(*b)),
{
    match (a, b) {
        (Some(x), Some(y)) => same(x, y),
        (None, None) => true,
        _ => false,
    }
}

/// Strict lexicographic order on characters, which is the order of `str`:
/// UTF-8 keeps code points in their numeric order.
pub open spec fn lex_lt(a: Seq<char>, b: Seq<char>) -> bool
    decreases a.len(),
{
    if b.len() == 0 {
        false
    } else if a.len() == 0 {
        true
    } else if a[0] != b[0] {
        (a[0] as int) < (b[0] as int)
    } else {
        lex_lt(a.drop_first(), b.drop_first())
    }
}

/// No string comes before itself.
pub proof fn lemma_lex_irreflexive(a: Seq<char>)
    ensures
        !lex_lt(a, a),
    decreases a.len(),
{
    if a.len() > 0 {
        lemma_lex_irreflexive(a.drop_first());
    }
}

/// The order is transitive.
pub proof fn lemma_lex_transitive(a: Seq<char>, b: Seq<char>, c: Seq<char>)
    requires
        lex_lt(a, b),
        lex_lt(b, c),
    ensures
        lex_lt(a, c),
    decreases a.len(),
{
    if a.len() > 0 && b.len() > 0 && c.len() > 0 && a[0] == b[0] && b[0] == c[0] {
        lemma_lex_transitive(a.drop_first(), b.drop_first(), c.drop_first());
    }
}

/// Of two different strings one comes before the other.
pub proof fn lemma_lex_total(a: Seq<char>, b: Seq<char>)
    ensures
        a == b || lex_lt(a, b) || lex_lt(b, a),
    decreases a.len(),
{
    if a.len() > 0 && b.len() > 0 {
        lemma_lex_total(a.drop_first(), b.drop_first());
        if a[0] == b[0] && a.drop_first() == b.drop_first() {
            assert(a =~= seq![a[0]] + a.drop_first());
            assert(b =~= seq![b[0]] + b.drop_first());
        }
    } else if a.len() == 0 && b.len() == 0 {
        assert(a =~= b);
    }
}

/// No two strings come before each other.
pub proof fn lemma_lex_asymmetric(a: Seq<char>, b: Seq<char>)
    requires
        lex_lt(a, b),
    ensures
        !lex_lt(b, a),
{
    if lex_lt(b, a) {
        lemma_lex_transitive(a, b, a);
        lemma_lex_irreflexive(a);
    }
}

/// Whether `a` comes strictly before `b`.
pub fn comes_before(a: &str, b: &str) -> (r: bool)
    ensures
        r == lex_lt(a@, b@),
{
    let x = chars_of(a);
    let y = chars_of(b);
    let mut i: usize = 0;
    proof {
        assert(x@.skip(0) =~= x@);
        assert(y@.skip(0) =~= y@);
    }
    while i < x.len() && i < y.len()
        invariant
            x@ == a@,
            y@ == b@,
            i <= x@.len(),
            i <= y@.len(),
            lex_lt(a@, b@) == lex_lt(x@.skip(i as int), y@.skip(i as int)),
        decreases x.len() - i,
    {
        proof {
            assert(x@.skip(i as int)[0] == x@[i as int]);
            assert(y@.skip(i as int)[0] == y@[i as int]);
            assert(x@.skip(i as int).drop_first() =~= x@.skip(i + 1));
            assert(y@.skip(i as int).drop_first() =~= y@.skip(i + 1));
        }
        if x[i] != y[i] {
            return x[i] < y[i];
        }
        i += 1;
    }
    i < y.len()
}

// ---- prefixes ----------------------------------------------------------------

/// Whether `s` begins with `prefix`.
pub fn starts_with(s: &str, prefix: &str) -> (r: bool)
    ensures
        r == prefix@.is_prefix_of(s@),
{
    let x = chars_of(s);
    let p = chars_of(prefix);
    if p.len() > x.len() {
        return false;
    }
    let mut i: usize = 0;
    while i < p.len()
        invariant
            x@ == s@,
            p@ == prefix@,
            p@.len() <= x@.len(),
            i <= p@.len(),
            forall|j: int| 0 <= j < i ==> p@[j] == x@[j],
        decreases p.len() - i,
    {
        if p[i] != x[i] {
            assert(s@.subrange(0, prefix@.len() as int)[i as int] != prefix@[i as int]);
            return false;
        }
        i += 1;
    }
    assert(s@.subrange(0, prefix@.len() as int) =~= prefix@);
    true
}

/// What is left of `s` behind `prefix`, or `None` where `s` does not begin
/// with it.
pub open spec fn stripped(s: Seq<char>, prefix: Seq<char>) -> Option<Seq<char>> {
    if prefix.is_prefix_of(s) {
        Some(s.skip(prefix.len() as int))
    } else {
        None
    }
}

/// What is left of `s` behind `prefix`.
pub fn strip_prefix(s: &str, prefix: &str) -> (r: Option<String>)
    ensures
        opt_view(r) == stripped(s@, prefix@),
{
    if !starts_with(s, prefix) {
        return None;
    }
    let x = chars_of(s);
    let p = chars_of(prefix);
    let rest = string_of_range(&x, p.len(), x.len());
    assert(rest@ =~= s@.skip(prefix@.len() as int));
    Some(rest)
}

// ---- concatenation -----------------------------------------------------------

/// `a` followed by `b`.
pub fn joined2(a: &str, b: &str) -> (r: String)
    ensures
        r@ == a@ + b@,
{
    let mut out = String::from_str(a);
    out.append(b);
    out
}

/// `a`, `b` and `c` in a row.
pub fn joined3(a: &str, b: &str, c: &str) -> (r: String)
    ensures
        r@ == a@ + b@ + c@,
{
    let mut out = String::from_str(a);
    out.append(b);
    out.append(c);
    out
}

/// The parts in order, with `sep` between each two of them.
pub open spec fn join_spec(parts: Seq<Seq<char>>, sep: Seq<char>) -> Seq<char>
    decreases parts.len(),
{
    if parts.len() == 0 {
        Seq::empty()
    } else if parts.len() == 1 {
        parts[0]
    } else {
        join_spec(parts.drop_last(), sep) + sep + parts.last()
    }
}

/// The strings in order, with `sep` between each two of them.
pub fn join(parts: &Vec<String>, sep: &str) -> (r: String)
    ensures
        r@ == join_spec(views(parts@), sep@),
{
    let mut out: String = String::new();
    let mut i: usize = 0;
    while i < parts.len()
        invariant
            i <= parts@.len(),
            out@ == join_spec(views(parts@).take(i as int), sep@),
        decreases parts.len() - i,
    {
        if i > 0 {
            out.append(sep);
        }
        out.append(&parts[i]);
        proof {
            let next = views(parts@).take(i + 1);
            assert(next.drop_last() =~= views(parts@).take(i as int));
            assert(next.last() == parts@[i as int]@);
            if i == 0 {
                assert(out@ =~= next[0]);
            }
        }
        i += 1;
    }
    assert(views(parts@).take(i as int) =~= views(parts@));
    out
}

// ---- splitting ---------------------------------------------------------------

/// The pieces of `s` between the occurrences of `sep`: one more than there are
/// occurrences, empty ones included.
pub open spec fn split_spec(s: Seq<char>, sep: char) -> Seq<Seq<char>>
    decreases s.len(),
{
    if s.len() == 0 {
        seq![Seq::empty()]
    } else {
        let rest = split_spec(s.drop_last(), sep);
        if s.last() == sep {
            rest.push(Seq::empty())
        } else {
            rest.drop_last().push(rest.last().push(s.last()))
        }
    }
}

pub proof fn lemma_split_nonempty(s: Seq<char>, sep: char)
    ensures
        split_spec(s, sep).len() > 0,
    decreases s.len(),
{
    if s.len() > 0 {
        lemma_split_nonempty(s.drop_last(), sep);
    }
}

/// The pieces of `s` between the occurrences of `sep`.
pub fn split(s: &str, sep: char) -> (r: Vec<String>)
    ensures
        views(r@) == split_spec(s@, sep),
{
    let x = chars_of(s);
    let mut out: Vec<String> = Vec::new();
    let mut piece: String = String::new();
    let mut i: usize = 0;
    assert(views(out@).push(piece@) =~= split_spec(x@.take(0), sep));
    while i < x.len()
        invariant
            x@ == s@,
            i <= x@.len(),
            views(out@).push(piece@) == split_spec(x@.take(i as int), sep),
        decreases x.len() - i,
    {
        proof {
            assert(x@.take(i + 1).drop_last() =~= x@.take(i as int));
            assert(x@.take(i + 1).last() == x@[i as int]);
        }
        let ghost before = views(out@).push(piece@);
        if x[i] == sep {
            out.push(piece);
            piece = String::new();
            assert(views(out@) =~= before);
        } else {
            let ghost old_piece = piece@;
            piece.push(x[i]);
            assert(before.drop_last() =~= views(out@));
            assert(before.last() == old_piece);
        }
        i += 1;
    }
    assert(x@.take(i as int) =~= s@);
    let ghost before = views(out@).push(piece@);
    out.push(piece);
    assert(views(out@) =~= before);
    out
}

/// Splitting what was joined gives the parts back, where no part holds the
/// separator and there is at least one part.
pub proof fn lemma_split_join(parts: Seq<Seq<char>>, sep: char)
    requires
        parts.len() > 0,
        forall|i: int| 0 <= i < parts.len() ==> !(#[trigger] parts[i]).contains(sep),
    ensures
        split_spec(join_spec(parts, seq![sep]), sep) == parts,
    decreases parts.len(),
{
    if parts.len() == 1 {
        assert(!parts[0].contains(sep));
        lemma_split_append(Seq::empty(), parts[0], sep);
        assert(Seq::<char>::empty() + parts[0] =~= parts[0]);
        assert(split_spec(Seq::empty(), sep) =~= seq![Seq::<char>::empty()]);
        assert(split_spec(parts[0], sep) =~= parts);
    } else {
        let front = parts.drop_last();
        assert forall|i: int| 0 <= i < front.len() implies !(#[trigger] front[i]).contains(sep) by {
            assert(!parts[i].contains(sep));
        }
        lemma_split_join(front, sep);
        let j = join_spec(front, seq![sep]);
        assert((j + seq![sep]).drop_last() =~= j);
        assert(split_spec(j + seq![sep], sep) == front.push(Seq::empty()));
        assert(!parts[parts.len() - 1].contains(sep));
        lemma_split_append(j + seq![sep], parts.last(), sep);
        assert(split_spec(j + seq![sep] + parts.last(), sep) =~= parts);
    }
}

/// Text without the separator only lengthens the last piece.
proof fn lemma_split_append(s: Seq<char>, t: Seq<char>, sep: char)
    requires
        !t.contains(sep),
    ensures
        split_spec(s + t, sep) == split_spec(s, sep).drop_last().push(
            split_spec(s, sep).last() + t,
        ),
    decreases t.len(),
{
    lemma_split_nonempty(s, sep);
    if t.len() == 0 {
        assert(s + t =~= s);
        assert(split_spec(s, sep).last() + t =~= split_spec(s, sep).last());
        assert(split_spec(s, sep) =~= split_spec(s, sep).drop_last().push(
            split_spec(s, sep).last(),
        ));
    } else {
        assert(t.last() == t[t.len() - 1]);
        assert forall|i: int| 0 <= i < t.drop_last().len() implies t.drop_last()[i] != sep by {
            assert(t.drop_last()[i] == t[i]);
        }
        lemma_split_append(s, t.drop_last(), sep);
        assert((s + t).drop_last() =~= s + t.drop_last());
        let r = split_spec(s + t.drop_last(), sep);
        assert(r.drop_last() =~= split_spec(s, sep).drop_last());
        assert(r.last().push(t.last()) =~= split_spec(s, sep).last() + t);
    }
}

/// What stands behind the last `sep` of `s`, all of `s` where there is none.
pub open spec fn after_last_spec(s: Seq<char>, sep: char) -> Seq<char> {
    split_spec(s, sep).last()
}

/// What stands behind the last `sep` of `s`.
pub fn after_last(s: &str, sep: char) -> (r: String)
    ensures
        r@ == after_last_spec(s@, sep),
{
    proof {
        lemma_split_nonempty(s@, sep);
    }
    let mut pieces = split(s, sep);
    assert(views(pieces@).last() == pieces@.last()@);
    match pieces.pop() {
        Some(p) => p,
        None => String::new(),
    }
}

/// `pat` stands in `s` at place `i`.
pub open spec fn occurs_at(s: Seq<char>, pat: Seq<char>, i: int) -> bool {
    0 <= i && i + pat.len() <= s.len() && s.subrange(i, i + pat.len()) == pat
}

/// The part of `s` in front of the first place at or behind `i` where `pat`
/// stands, all of `s` where it stands nowhere there.
pub open spec fn before_from(s: Seq<char>, pat: Seq<char>, i: int) -> Seq<char>
    decreases s.len() - i,
{
    if i < 0 || i > s.len() {
        s
    } else if occurs_at(s, pat, i) {
        s.take(i)
    } else if i == s.len() {
        s
    } else {
        before_from(s, pat, i + 1)
    }
}

/// The part of `s` in front of the first place where `pat` stands, all of `s`
/// where it stands nowhere.
pub open spec fn before_first_spec(s: Seq<char>, pat: Seq<char>) -> Seq<char> {
    before_from(s, pat, 0)
}

proof fn lemma_no_room(s: Seq<char>, pat: Seq<char>, i: int)
    requires
        0 <= i <= s.len() + 1,
        i + pat.len() > s.len(),
    ensures
        before_from(s, pat, i) == s,
    decreases s.len() - i,
{
    if i < s.len() {
        lemma_no_room(s, pat, i + 1);
    }
}

/// The part of `s` in front of the first place where `pat` stands.
pub fn before_first(s: &str, pat: &str) -> (r: String)
    ensures
        r@ == before_first_spec(s@, pat@),
{
    let x = chars_of(s);
    let p = chars_of(pat);
    let mut i: usize = 0;
    while i <= x.len() && p.len() <= x.len() - i
        invariant
            x@ == s@,
            p@ == pat@,
            i <= x@.len() + 1,
            before_first_spec(s@, pat@) == before_from(s@, pat@, i as int),
        decreases x.len() + 1 - i,
    {
        let mut k: usize = 0;
        while k < p.len() && p[k] == x[i + k]
            invariant
                i + p.len() <= x.len(),
                k <= p@.len(),
                forall|j: int| 0 <= j < k ==> p@[j] == x@[i + j],
            decreases p.len() - k,
        {
            k += 1;
        }
        if k == p.len() {
            assert(s@.subrange(i as int, i + pat@.len()) =~= pat@);
            assert(occurs_at(s@, pat@, i as int));
            let out = string_of_range(&x, 0, i);
            assert(out@ =~= s@.take(i as int));
            return out;
        }
        assert(s@.subrange(i as int, i + pat@.len())[k as int] != pat@[k as int]);
        i += 1;
    }
    proof {
        lemma_no_room(s@, pat@, i as int);
    }
    string_of(&x)
}

// ---- characters --------------------------------------------------------------

/// ASCII letters and digits.
pub open spec fn is_alphanumeric_ascii(c: char) -> bool {
    ('a' <= c <= 'z') || ('A' <= c <= 'Z') || ('0' <= c <= '9')
}

/// `c` in lower case, where it is an ASCII letter.
pub open spec fn lower(c: char) -> char {
    if 'A' <= c <= 'Z' {
        ((c as u8) + 32) as char
    } else {
        c
    }
}

/// `c` in upper case, where it is an ASCII letter.
pub open spec fn upper(c: char) -> char {
    if 'a' <= c <= 'z' {
        ((c as u8) - 32) as char
    } else {
        c
    }
}

pub fn lower_char(c: char) -> (r: char)
    ensures
        r == lower(c),
{
    if 'A' <= c && c <= 'Z' {
        ((c as u8) + 32) as char
    } else {
        c
    }
}

pub fn upper_char(c: char) -> (r: char)
    ensures
        r == upper(c),
{
    if 'a' <= c && c <= 'z' {
        ((c as u8) - 32) as char
    } else {
        c
    }
}

/// Unicode's White_Space characters.
pub open spec fn is_white_space(c: char) -> bool {
    ('\u{9}' <= c <= '\u{d}') || c == '\u{20}' || c == '\u{85}' || c == '\u{a0}' || c == '\u{1680}'
        || ('\u{2000}' <= c <= '\u{200a}') || c == '\u{2028}' || c == '\u{2029}' || c == '\u{202f}'
        || c == '\u{205f}' || c == '\u{3000}'
}

pub fn white_space(c: char) -> (r: bool)
    ensures
        r == is_white_space(c),
{
    ('\u{9}' <= c && c <= '\u{d}') || c == '\u{20}' || c == '\u{85}' || c == '\u{a0}' || c
        == '\u{1680}' || ('\u{2000}' <= c && c <= '\u{200a}') || c == '\u{2028}' || c == '\u{2029}'
        || c == '\u{202f}' || c == '\u{205f}' || c == '\u{3000}'
}

/// Each ASCII letter of `s` in lower case.
pub open spec fn lower_all(s: Seq<char>) -> Seq<char> {
    s.map_values(|c: char| lower(c))
}

/// Each ASCII letter of `s` in upper case.
pub open spec fn upper_all(s: Seq<char>) -> Seq<char> {
    s.map_values(|c: char| upper(c))
}

/// `s` with its ASCII letters in upper case.
pub fn to_upper(s: &str) -> (r: String)
    ensures
        r@ == upper_all(s@),
{
    let x = chars_of(s);
    let mut out: String = String::new();
    let mut i: usize = 0;
    while i < x.len()
        invariant
            x@ == s@,
            i <= x@.len(),
            out@ == upper_all(s@).take(i as int),
        decreases x.len() - i,
    {
        out.push(upper_char(x[i]));
        assert(out@ =~= upper_all(s@).take(i + 1));
        i += 1;
    }
    assert(out@ =~= upper_all(s@));
    out
}

/// Whether the two strings differ at most in the case of ASCII letters.
pub fn same_ignoring_case(a: &str, b: &str) -> (r: bool)
    ensures
        r == (lower_all(a@) == lower_all(b@)),
{
    let x = chars_of(a);
    let y = chars_of(b);
    if x.len() != y.len() {
        assert(lower_all(a@).len() != lower_all(b@).len());
        return false;
    }
    let mut i: usize = 0;
    while i < x.len()
        invariant
            x@ == a@,
            y@ == b@,
            x@.len() == y@.len(),
            i <= x@.len(),
            forall|j: int| 0 <= j < i ==> lower(a@[j]) == lower(b@[j]),
        decreases x.len() - i,
    {
        if lower_char(x[i]) != lower_char(y[i]) {
            assert(lower_all(a@)[i as int] != lower_all(b@)[i as int]);
            return false;
        }
        i += 1;
    }
    assert(lower_all(a@) =~= lower_all(b@));
    true
}

// ---- trimming ----------------------------------------------------------------

/// `s` without the white space at its start.
pub open spec fn trim_start_spec(s: Seq<char>) -> Seq<char>
    decreases s.len(),
{
    if s.len() > 0 && is_white_space(s[0]) {
        trim_start_spec(s.drop_first())
    } else {
        s
    }
}

/// `s` without the white space at its end.
pub open spec fn trim_end_spec(s: Seq<char>) -> Seq<char>
    decreases s.len(),
{
    if s.len() > 0 && is_white_space(s.last()) {
        trim_end_spec(s.drop_last())
    } else {
        s
    }
}

/// `s` without the white space at its two ends.
pub open spec fn trimmed(s: Seq<char>) -> Seq<char> {
    trim_end_spec(trim_start_spec(s))
}

/// `s` without the white space at its two ends.
pub fn trim(s: &str) -> (r: String)
    ensures
        r@ == trimmed(s@),
{
    let x = chars_of(s);
    let mut i: usize = 0;
    assert(x@.skip(0) =~= x@);
    while i < x.len() && white_space(x[i])
        invariant
            x@ == s@,
            i <= x@.len(),
            trim_start_spec(s@) == trim_start_spec(x@.skip(i as int)),
        decreases x.len() - i,
    {
        assert(x@.skip(i as int).drop_first() =~= x@.skip(i + 1));
        i += 1;
    }
    let mut j: usize = x.len();
    let ghost start = x@.skip(i as int);
    assert(start =~= x@.subrange(i as int, j as int));
    while i < j && white_space(x[j - 1])
        invariant
            x@ == s@,
            i <= j <= x@.len(),
            trim_end_spec(start) == trim_end_spec(x@.subrange(i as int, j as int)),
        decreases j,
    {
        assert(x@.subrange(i as int, j as int).drop_last() =~= x@.subrange(i as int, j - 1));
        j -= 1;
    }
    string_of_range(&x, i, j)
}

/// The words of `s`: its longest runs of characters that are no white space.
pub open spec fn words_spec(s: Seq<char>) -> Seq<Seq<char>>
    decreases s.len(),
{
    if s.len() == 0 {
        Seq::empty()
    } else {
        let c = s.last();
        let rest = words_spec(s.drop_last());
        if is_white_space(c) {
            rest
        } else if s.len() > 1 && !is_white_space(s[s.len() - 2]) {
            rest.drop_last().push(rest.last().push(c))
        } else {
            rest.push(seq![c])
        }
    }
}

/// The words of `s`.
pub fn words(s: &str) -> (r: Vec<String>)
    ensures
        views(r@) == words_spec(s@),
{
    let x = chars_of(s);
    let mut out: Vec<String> = Vec::new();
    let mut word: String = String::new();
    let mut inside = false;
    let mut i: usize = 0;
    assert(views(out@) =~= words_spec(x@.take(0)));
    while i < x.len()
        invariant
            x@ == s@,
            i <= x@.len(),
            inside == (i > 0 && !is_white_space(x@[i - 1])),
            inside ==> views(out@).push(word@) == words_spec(x@.take(i as int)),
            !inside ==> views(out@) == words_spec(x@.take(i as int)) && word@ == Seq::<char>::empty(),
        decreases x.len() - i,
    {
        let ghost now = x@.take(i + 1);
        let ghost before = words_spec(x@.take(i as int));
        proof {
            assert(now.drop_last() =~= x@.take(i as int));
            assert(now.last() == x@[i as int]);
            if i > 0 {
                assert(now[now.len() - 2] == x@[i - 1]);
            }
        }
        if white_space(x[i]) {
            if inside {
                out.push(word);
                word = String::new();
                assert(views(out@) =~= before);
            }
            inside = false;
        } else {
            let ghost old_word = word@;
            word.push(x[i]);
            proof {
                if inside {
                    assert(before.drop_last() =~= views(out@));
                    assert(before.last() == old_word);
                } else {
                    assert(word@ =~= seq![x@[i as int]]);
                }
            }
            inside = true;
        }
        i += 1;
    }
    assert(x@.take(i as int) =~= s@);
    if inside {
        let ghost all = views(out@).push(word@);
        out.push(word);
        assert(views(out@) =~= all);
    }
    out
}

// ---- numbers -----------------------------------------------------------------

/// The character of a digit below sixteen, in lower case.
pub open spec fn digit(d: int) -> char {
    if d < 10 {
        (('0' as u8) + d) as char
    } else {
        (('a' as u8) + (d - 10)) as char
    }
}

pub fn digit_char(d: u8) -> (r: char)
    requires
        d < 16,
    ensures
        r == digit(d as int),
{
    if d < 10 {
        (48 + d) as char
    } else {
        (97 + (d - 10)) as char
    }
}

/// `n` in decimal, without leading zeros.
pub open spec fn decimal(n: int) -> Seq<char>
    decreases n,
{
    if n < 10 {
        seq![digit(n)]
    } else {
        decimal(n / 10).push(digit(n % 10))
    }
}

/// Appends `n` in decimal.
pub fn push_decimal(out: &mut String, n: u64)
    ensures
        final(out)@ == old(out)@ + decimal(n as int),
    decreases n,
{
    if n >= 10 {
        push_decimal(out, n / 10);
    }
    let ghost mid = out@;
    out.push(digit_char((n % 10) as u8));
    proof {
        if n < 10 {
            assert(out@ =~= old(out)@ + decimal(n as int));
        } else {
            assert(out@ =~= old(out)@ + decimal((n / 10) as int).push(digit((n % 10) as int)));
        }
    }
}

/// A signed number in decimal.
pub open spec fn signed_decimal(n: int) -> Seq<char> {
    if n < 0 {
        seq!['-'] + decimal(-n)
    } else {
        decimal(n)
    }
}

/// `n` in decimal, as a string.
pub fn decimal_of(n: u64) -> (r: String)
    ensures
        r@ == decimal(n as int),
{
    let mut out: String = String::new();
    push_decimal(&mut out, n);
    assert(out@ =~= decimal(n as int));
    out
}

/// The value of a decimal digit.
pub open spec fn digit_value(c: char) -> int {
    (c as int) - ('0' as int)
}

/// Whether every character is a decimal digit.
pub open spec fn all_digits(s: Seq<char>) -> bool {
    forall|i: int| 0 <= i < s.len() ==> '0' <= #[trigger] s[i] <= '9'
}

/// The number a row of decimal digits stands for.
pub open spec fn number_of(s: Seq<char>) -> int
    decreases s.len(),
{
    if s.len() == 0 {
        0
    } else {
        number_of(s.drop_last()) * 10 + digit_value(s.last())
    }
}

/// The digits of a number as it may be written: one leading `+` is allowed.
pub open spec fn unsigned_digits(s: Seq<char>) -> Seq<char> {
    if s.len() > 1 && s[0] == '+' {
        s.drop_first()
    } else {
        s
    }
}

/// What a string reads as, where it is a decimal number that fits.
pub open spec fn parsed_u32(s: Seq<char>) -> Option<u32> {
    let d = unsigned_digits(s);
    if d.len() > 0 && all_digits(d) && number_of(d) <= u32::MAX {
        Some(number_of(d) as u32)
    } else {
        None
    }
}

proof fn lemma_number_grows(s: Seq<char>, n: int)
    requires
        all_digits(s),
        0 <= n <= s.len(),
    ensures
        0 <= number_of(s.take(n)) <= number_of(s),
    decreases s.len(),
{
    if n == s.len() {
        assert(s.take(n) =~= s);
        if n > 0 {
            lemma_number_grows(s.drop_last(), n - 1);
            assert(s.drop_last().take(n - 1) =~= s.drop_last());
            assert(s.last() == s[s.len() - 1]);
        }
    } else {
        lemma_number_grows(s.drop_last(), n);
        assert(s.drop_last().take(n) =~= s.take(n));
        assert(s.last() == s[s.len() - 1]);
    }
}

/// Reads a decimal number: digits, with one leading `+` allowed, up to the
/// largest `u32`.
pub fn parse_u32(s: &str) -> (r: Option<u32>)
    ensures
        r == parsed_u32(s@),
{
    let x = chars_of(s);
    let start: usize = if x.len() > 1 && x[0] == '+' {
        1
    } else {
        0
    };
    let ghost d = unsigned_digits(s@);
    assert(d =~= x@.skip(start as int));
    if x.len() == start {
        return None;
    }
    let mut n: u32 = 0;
    let mut i: usize = start;
    while i < x.len()
        invariant
            x@ == s@,
            start <= i <= x@.len(),
            d == x@.skip(start as int),
            d == unsigned_digits(s@),
            d.len() > 0,
            all_digits(d.take(i - start)),
            n == number_of(d.take(i - start)),
        decreases x.len() - i,
    {
        let c = x[i];
        proof {
            assert(d[i - start] == c);
            assert(d.take(i - start + 1).drop_last() =~= d.take(i - start));
            assert(d.take(i - start + 1).last() == c);
        }
        if c < '0' || c > '9' {
            return None;
        }
        let v: u32 = (c as u32) - 48;
        let wide: u64 = (n as u64) * 10 + (v as u64);
        proof {
            assert(wide == number_of(d.take(i - start + 1)));
        }
        if wide > 4294967295 {
            proof {
                if all_digits(d) {
                    lemma_number_grows(d, i - start + 1);
                }
            }
            return None;
        }
        n = wide as u32;
        i += 1;
    }
    assert(d.take(i - start) =~= d);
    Some(n)
}

/// The lowest `width` hexadecimal digits of `n`, in lower case.
pub open spec fn hex(n: int, width: nat) -> Seq<char>
    decreases width,
{
    if width == 0 {
        Seq::empty()
    } else {
        hex(n / 16, (width - 1) as nat).push(digit(n % 16))
    }
}

/// Appends the lowest `width` hexadecimal digits of `n`, in lower case.
pub fn push_hex(out: &mut String, n: u64, width: usize)
    ensures
        final(out)@ == old(out)@ + hex(n as int, width as nat),
    decreases width,
{
    if width > 0 {
        push_hex(out, n / 16, width - 1);
        out.push(digit_char((n % 16) as u8));
    }
    assert(out@ =~= old(out)@ + hex(n as int, width as nat));
}

/// The bytes in hexadecimal, two lower-case digits each.
pub open spec fn hex_bytes(b: Seq<u8>) -> Seq<char>
    decreases b.len(),
{
    if b.len() == 0 {
        Seq::empty()
    } else {
        hex_bytes(b.drop_last()) + hex(b.last() as int, 2)
    }
}

/// Two digits for each byte.
pub proof fn lemma_hex_bytes_len(b: Seq<u8>)
    ensures
        hex_bytes(b).len() == 2 * b.len(),
    decreases b.len(),
{
    if b.len() > 0 {
        lemma_hex_bytes_len(b.drop_last());
        reveal_with_fuel(hex, 3);
    }
}

/// Bytes that are written alike are alike.
pub proof fn lemma_hex_bytes_injective(a: Seq<u8>, b: Seq<u8>)
    requires
        hex_bytes(a) == hex_bytes(b),
    ensures
        a == b,
    decreases a.len(),
{
    lemma_hex_bytes_len(a);
    lemma_hex_bytes_len(b);
    if a.len() == 0 {
        assert(a =~= b);
    } else {
        reveal_with_fuel(hex, 3);
        let (p, q) = (hex_bytes(a.drop_last()), hex_bytes(b.drop_last()));
        let (x, y) = (a.last() as int, b.last() as int);
        lemma_hex_bytes_len(a.drop_last());
        lemma_hex_bytes_len(b.drop_last());
        let n = p.len() as int;
        assert(hex_bytes(a)[n] == digit(x / 16 % 16));
        assert(hex_bytes(b)[n] == digit(y / 16 % 16));
        assert(hex_bytes(a)[n + 1] == digit(x % 16));
        assert(hex_bytes(b)[n + 1] == digit(y % 16));
        assert(x == y);
        assert(p =~= hex_bytes(a).take(n));
        assert(q =~= hex_bytes(b).take(n));
        lemma_hex_bytes_injective(a.drop_last(), b.drop_last());
        assert(a =~= a.drop_last().push(a.last()));
        assert(b =~= b.drop_last().push(b.last()));
    }
}

/// The bytes in hexadecimal, two lower-case digits each.
pub fn hex_of(bytes: &[u8]) -> (r: String)
    ensures
        r@ == hex_bytes(bytes@),
{
    let mut out: String = String::new();
    let mut i: usize = 0;
    while i < bytes.len()
        invariant
            i <= bytes@.len(),
            out@ == hex_bytes(bytes@.take(i as int)),
        decreases bytes.len() - i,
    {
        push_hex(&mut out, bytes[i] as u64, 2);
        proof {
            assert(bytes@.take(i + 1).drop_last() =~= bytes@.take(i as int));
        }
        i += 1;
    }
    assert(bytes@.take(i as int) =~= bytes@);
    out
}

// ---- laws --------------------------------------------------------------------------

/// A number that is written out is digits, and stands for itself.
pub proof fn lemma_digits_read_back(n: int)
    requires
        0 <= n,
    ensures
        all_digits(decimal(n)),
        decimal(n).len() > 0,
        number_of(decimal(n)) == n,
    decreases n,
{
    if n < 10 {
        let s = decimal(n);
        assert(s =~= seq![digit(n)]);
        assert(s.drop_last() =~= Seq::<char>::empty());
        assert(number_of(s.drop_last()) == 0);
        assert(s.last() == digit(n));
    } else {
        let front = decimal(n / 10);
        lemma_digits_read_back(n / 10);
        let s = front.push(digit(n % 10));
        assert(s == decimal(n));
        assert(s.drop_last() =~= front);
        assert forall|i: int| 0 <= i < s.len() implies '0' <= #[trigger] s[i] <= '9' by {
            if i < front.len() {
                assert(s[i] == front[i]);
            } else {
                assert(s[i] == digit(n % 10));
            }
        }
    }
}

/// A number that is written out reads back as itself, with or without a plus sign.
pub proof fn law_written_numbers_read_back(n: u32)
    ensures
        parsed_u32(decimal(n as int)) == Some(n),
        parsed_u32(seq!['+'] + decimal(n as int)) == Some(n),
{
    lemma_digits_read_back(n as int);
    let d = decimal(n as int);
    assert('0' <= d[0] <= '9');
    let p = seq!['+'] + d;
    assert(p.drop_first() =~= d);
    assert(p[0] == '+');
}

/// What holds anything but digits is no number, nor is what holds nothing.
pub proof fn law_only_digits_are_numbers(s: Seq<char>, i: int)
    requires
        0 <= i < s.len(),
        !('0' <= s[i] <= '9'),
        i > 0 || s[0] != '+',
    ensures
        parsed_u32(s) is None,
        parsed_u32(Seq::empty()) is None,
        parsed_u32(seq!['+']) is None,
{
    let d = unsigned_digits(s);
    if s.len() > 1 && s[0] == '+' {
        assert(d[i - 1] == s[i]);
    } else {
        assert(d[i] == s[i]);
    }
    assert(seq!['+'][0] == '+');
    assert(!all_digits(seq!['+']));
}

/// Splitting takes out the separators and nothing else: no piece holds one, and joined
/// by it the pieces are the text.
pub proof fn law_pieces_make_up_the_text(s: Seq<char>, sep: char)
    ensures
        split_spec(s, sep).len() > 0,
        forall|i: int|
            0 <= i < split_spec(s, sep).len() ==> !(#[trigger] split_spec(s, sep)[i]).contains(sep),
        join_spec(split_spec(s, sep), seq![sep]) == s,
    decreases s.len(),
{
    let all = split_spec(s, sep);
    if s.len() == 0 {
        assert(all[0] =~= Seq::<char>::empty());
        assert(join_spec(all, seq![sep]) =~= s);
    } else {
        let front = s.drop_last();
        let c = s.last();
        law_pieces_make_up_the_text(front, sep);
        let rest = split_spec(front, sep);
        assert(s =~= front.push(c));
        if c == sep {
            assert(all == rest.push(Seq::empty()));
            assert(all.drop_last() =~= rest);
            assert(join_spec(all, seq![sep]) =~= s);
            assert forall|i: int| 0 <= i < all.len() implies !(#[trigger] all[i]).contains(sep) by {
                if i < rest.len() {
                    assert(all[i] == rest[i]);
                }
            }
        } else {
            let last = rest.last().push(c);
            assert(all == rest.drop_last().push(last));
            assert(all.drop_last() =~= rest.drop_last());
            assert(all.last() == last);
            if rest.len() == 1 {
                assert(rest[0] == front);
                assert(all.len() == 1);
                assert(all[0] =~= s);
                assert(join_spec(all, seq![sep]) =~= s);
            } else {
                let before = join_spec(rest.drop_last(), seq![sep]);
                assert(front == before + seq![sep] + rest.last());
                assert(join_spec(all, seq![sep]) == before + seq![sep] + last);
                assert(before + seq![sep] + last =~= (before + seq![sep] + rest.last()).push(c));
            }
            assert forall|i: int| 0 <= i < all.len() implies !(#[trigger] all[i]).contains(sep) by {
                if i < rest.len() - 1 {
                    assert(all[i] == rest[i]);
                } else {
                    assert(all[i] == last);
                    assert(!rest[rest.len() - 1].contains(sep));
                    if last.contains(sep) {
                        let j = choose|j: int| 0 <= j < last.len() && last[j] == sep;
                        assert(j < rest.last().len());
                        assert(rest.last()[j] == sep);
                    }
                }
            }
        }
    }
}

/// What stands behind the last separator holds none, and the text ends with it; it is
/// the whole text exactly where that holds no separator.
pub proof fn law_the_last_piece_ends_the_text(s: Seq<char>, sep: char)
    ensures
        ({
            let r = after_last_spec(s, sep);
            &&& !r.contains(sep)
            &&& !s.contains(sep) ==> r == s
            &&& s.contains(sep) ==> r.len() < s.len() && s[s.len() - r.len() - 1] == sep
            &&& r.len() <= s.len() && s.skip(s.len() - r.len()) == r
        }),
    decreases s.len(),
{
    law_pieces_make_up_the_text(s, sep);
    let all = split_spec(s, sep);
    let r = all.last();
    assert(r == all[all.len() - 1]);
    if all.len() == 1 {
        assert(s == r);
        assert(s.skip(0) =~= s);
    } else {
        let before = join_spec(all.drop_last(), seq![sep]);
        assert(s == before + seq![sep] + r);
        assert(s[before.len() as int] == sep);
        assert(s.skip(s.len() - r.len()) =~= r);
        assert(s.contains(sep));
    }
}

/// Trimming takes white space off both ends, all of it, and nothing else.
pub proof fn law_trimming_takes_off_white_space(s: Seq<char>) -> (cut: (int, int))
    ensures
        0 <= cut.0 <= cut.1 <= s.len(),
        trimmed(s) == s.subrange(cut.0, cut.1),
        forall|i: int| 0 <= i < cut.0 ==> is_white_space(#[trigger] s[i]),
        forall|i: int| cut.1 <= i < s.len() ==> is_white_space(#[trigger] s[i]),
        cut.0 < cut.1 ==> !is_white_space(s[cut.0]) && !is_white_space(s[cut.1 - 1]),
{
    let a = lemma_trim_start(s);
    let t = trim_start_spec(s);
    let n = lemma_trim_end(t);
    assert(trimmed(s) =~= s.subrange(a, a + n));
    assert forall|i: int| a + n <= i < s.len() implies is_white_space(#[trigger] s[i]) by {
        assert(t[i - a] == s[i]);
    }
    if n > 0 {
        assert(t[0] == s[a]);
        assert(t[n - 1] == s[a + n - 1]);
    }
    (a, a + n)
}

proof fn lemma_trim_start(s: Seq<char>) -> (a: int)
    ensures
        0 <= a <= s.len(),
        trim_start_spec(s) == s.skip(a),
        forall|i: int| 0 <= i < a ==> is_white_space(#[trigger] s[i]),
        a < s.len() ==> !is_white_space(s[a]),
    decreases s.len(),
{
    if s.len() > 0 && is_white_space(s[0]) {
        let rest = s.drop_first();
        let b = lemma_trim_start(rest);
        assert(rest.skip(b) =~= s.skip(b + 1));
        assert forall|i: int| 0 <= i < b + 1 implies is_white_space(#[trigger] s[i]) by {
            if i > 0 {
                assert(rest[i - 1] == s[i]);
            }
        }
        if b < rest.len() {
            assert(rest[b] == s[b + 1]);
        }
        b + 1
    } else {
        assert(s.skip(0) =~= s);
        0
    }
}

proof fn lemma_trim_end(s: Seq<char>) -> (n: int)
    ensures
        0 <= n <= s.len(),
        trim_end_spec(s) == s.take(n),
        forall|i: int| n <= i < s.len() ==> is_white_space(#[trigger] s[i]),
        n > 0 ==> !is_white_space(s[n - 1]),
    decreases s.len(),
{
    if s.len() > 0 && is_white_space(s.last()) {
        let rest = s.drop_last();
        let n = lemma_trim_end(rest);
        assert(rest.take(n) =~= s.take(n));
        assert forall|i: int| n <= i < s.len() implies is_white_space(#[trigger] s[i]) by {
            if i < rest.len() {
                assert(rest[i] == s[i]);
            }
        }
        n
    } else {
        assert(s.take(s.len() as int) =~= s);
        s.len() as int
    }
}

/// Words are what white space parts: what holds none is one word, and the words of a
/// text with white space in it are those in front of it, then those behind.
pub proof fn law_white_space_parts_words(a: Seq<char>, c: char, b: Seq<char>)
    requires
        is_white_space(c),
    ensures
        words_spec(a.push(c) + b) == words_spec(a) + words_spec(b),
        a.len() > 0 && (forall|i: int| 0 <= i < a.len() ==> !is_white_space(#[trigger] a[i]))
            ==> words_spec(a) == seq![a],
        words_spec(Seq::empty()).len() == 0,
    decreases a.len() + b.len(),
{
    lemma_one_word(a);
    lemma_words_parted(a, c, b);
}

proof fn lemma_words_parted(a: Seq<char>, c: char, b: Seq<char>)
    requires
        is_white_space(c),
    ensures
        words_spec(a.push(c) + b) == words_spec(a) + words_spec(b),
    decreases b.len(),
{
    let s = a.push(c) + b;
    if b.len() == 0 {
        assert(s =~= a.push(c));
        assert(s.drop_last() =~= a);
        assert(words_spec(a) + words_spec(b) =~= words_spec(a));
    } else {
        let front = b.drop_last();
        let x = b.last();
        lemma_words_parted(a, c, front);
        assert(s.drop_last() =~= a.push(c) + front);
        assert(s.last() == x);
        let ws = words_spec(front);
        let all = words_spec(a) + ws;
        if !is_white_space(x) {
            if front.len() > 0 {
                assert(s[s.len() - 2] == b[b.len() - 2]);
                if !is_white_space(b[b.len() - 2]) {
                    lemma_some_word(front);
                    assert(all.last() == ws.last());
                    assert(all.drop_last().push(all.last().push(x)) =~= words_spec(a)
                        + ws.drop_last().push(ws.last().push(x)));
                } else {
                    assert(all.push(seq![x]) =~= words_spec(a) + ws.push(seq![x]));
                }
            } else {
                assert(s[s.len() - 2] == c);
                assert(all.push(seq![x]) =~= words_spec(a) + ws.push(seq![x]));
            }
        }
    }
}

proof fn lemma_some_word(s: Seq<char>)
    requires
        s.len() > 0,
        !is_white_space(s.last()),
    ensures
        words_spec(s).len() > 0,
{
}

proof fn lemma_one_word(a: Seq<char>)
    ensures
        a.len() > 0 && (forall|i: int| 0 <= i < a.len() ==> !is_white_space(#[trigger] a[i]))
            ==> words_spec(a) == seq![a],
    decreases a.len(),
{
    if a.len() > 0 && (forall|i: int| 0 <= i < a.len() ==> !is_white_space(#[trigger] a[i])) {
        let front = a.drop_last();
        lemma_one_word(front);
        assert(a =~= front.push(a.last()));
        assert(!is_white_space(a[a.len() - 1]));
        if front.len() > 0 {
            assert forall|i: int| 0 <= i < front.len() implies !is_white_space(
                #[trigger] front[i],
            ) by {
                assert(front[i] == a[i]);
            }
            assert(!is_white_space(a[a.len() - 2]));
            let rest = words_spec(front);
            assert(rest == seq![front]);
            assert(rest.drop_last().push(rest.last().push(a.last())) =~= seq![a]);
        } else {
            assert(words_spec(front) =~= Seq::<Seq<char>>::empty());
            assert(a =~= seq![a.last()]);
            assert(words_spec(a) =~= seq![a]);
        }
    }
}

/// The part in front of a mark ends where the mark first stands, and is the whole text
/// where it stands nowhere.
pub proof fn law_the_first_mark_ends_the_part(s: Seq<char>, pat: Seq<char>)
    ensures
        ({
            let r = before_first_spec(s, pat);
            &&& r.len() <= s.len() && r == s.take(r.len() as int)
            &&& forall|i: int| 0 <= i < r.len() ==> !#[trigger] occurs_at(s, pat, i)
            &&& r.len() < s.len() ==> occurs_at(s, pat, r.len() as int)
        }),
{
    lemma_before_from(s, pat, 0);
}

proof fn lemma_before_from(s: Seq<char>, pat: Seq<char>, i: int)
    requires
        0 <= i <= s.len(),
    ensures
        ({
            let r = before_from(s, pat, i);
            &&& i <= r.len() <= s.len() && r == s.take(r.len() as int)
            &&& forall|j: int| i <= j < r.len() ==> !#[trigger] occurs_at(s, pat, j)
            &&& r.len() < s.len() ==> occurs_at(s, pat, r.len() as int)
        }),
    decreases s.len() - i,
{
    assert(s.take(s.len() as int) =~= s);
    if !occurs_at(s, pat, i) && i < s.len() {
        lemma_before_from(s, pat, i + 1);
    }
}

/// Comparing without regard to case is blind to case and to nothing else: two texts
/// are equal then exactly where each pair of characters is equal or are the two cases
/// of one letter.
pub proof fn law_only_case_is_overlooked(a: Seq<char>, b: Seq<char>)
    ensures
        lower_all(a) == lower_all(b) <==> a.len() == b.len() && forall|i: int|
            0 <= i < a.len() ==> {
                let x = #[trigger] a[i];
                let y = b[i];
                ||| x == y
                ||| ('A' <= x <= 'Z') && y as int == x as int + 32
                ||| ('A' <= y <= 'Z') && x as int == y as int + 32
            },
        lower_all(upper_all(a)) == lower_all(a),
{
    if lower_all(a) == lower_all(b) {
        assert(lower_all(a).len() == a.len() && lower_all(b).len() == b.len());
        assert forall|i: int| 0 <= i < a.len() implies {
            let x = #[trigger] a[i];
            let y = b[i];
            ||| x == y
            ||| ('A' <= x <= 'Z') && y as int == x as int + 32
            ||| ('A' <= y <= 'Z') && x as int == y as int + 32
        } by {
            assert(lower_all(a)[i] == lower(a[i]));
            assert(lower_all(b)[i] == lower(b[i]));
        }
    }
    if a.len() == b.len() && forall|i: int|
        0 <= i < a.len() ==> {
            let x = #[trigger] a[i];
            let y = b[i];
            ||| x == y
            ||| ('A' <= x <= 'Z') && y as int == x as int + 32
            ||| ('A' <= y <= 'Z') && x as int == y as int + 32
        } {
        assert forall|i: int| 0 <= i < a.len() implies lower_all(a)[i] == lower_all(b)[i] by {
            let x = a[i];
            let y = b[i];
        }
        assert(lower_all(a) =~= lower_all(b));
    }
    assert(lower_all(upper_all(a)) =~= lower_all(a));
}

} // verus!
