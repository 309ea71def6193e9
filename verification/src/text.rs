//! Text helpers on characters: trimming, splitting, joining, searching, and
//! cutting a string at a character index.

use vstd::prelude::*;

verus! {

/// Whether `c` is white space (the Unicode property `White_Space`).
pub open spec fn is_white_space(c: char) -> bool {
    let code = c as u32;
    ||| 0x09 <= code <= 0x0D
    ||| code == 0x20
    ||| code == 0x85
    ||| code == 0xA0
    ||| code == 0x1680
    ||| 0x2000 <= code <= 0x200A
    ||| code == 0x2028
    ||| code == 0x2029
    ||| code == 0x202F
    ||| code == 0x205F
    ||| code == 0x3000
}

/// The number of white-space characters at the start of `s`.
pub open spec fn leading_white_space(s: Seq<char>) -> nat
    decreases s.len(),
{
    if s.len() > 0 && is_white_space(s[0]) {
        1 + leading_white_space(s.drop_first())
    } else {
        0
    }
}

/// The number of white-space characters at the end of `s`.
pub open spec fn trailing_white_space(s: Seq<char>) -> nat
    decreases s.len(),
{
    if s.len() > 0 && is_white_space(s.last()) {
        1 + trailing_white_space(s.drop_last())
    } else {
        0
    }
}

/// `s` without its leading and trailing white space.
pub open spec fn trimmed(s: Seq<char>) -> Seq<char> {
    let rest = s.skip(leading_white_space(s) as int);
    rest.take(rest.len() - trailing_white_space(rest))
}

/// The number of characters at the start of `s` that equal `c`.
pub open spec fn leading_run(s: Seq<char>, c: char) -> nat
    decreases s.len(),
{
    if s.len() > 0 && s[0] == c {
        1 + leading_run(s.drop_first(), c)
    } else {
        0
    }
}

/// `s` without the run of `c` that it starts with.
pub open spec fn without_leading(s: Seq<char>, c: char) -> Seq<char> {
    s.skip(leading_run(s, c) as int)
}

/// The number of characters at the end of `s` that equal `c`.
pub open spec fn trailing_run(s: Seq<char>, c: char) -> nat
    decreases s.len(),
{
    if s.len() > 0 && s.last() == c {
        1 + trailing_run(s.drop_last(), c)
    } else {
        0
    }
}

/// `s` without the run of `c` that it ends with.
pub open spec fn without_trailing(s: Seq<char>, c: char) -> Seq<char> {
    s.take(s.len() - trailing_run(s, c))
}

/// `s` with `to` in place of each occurrence of `from`, found from the
/// left, none overlapping another.
pub open spec fn replaced(s: Seq<char>, from: Seq<char>, to: Seq<char>) -> Seq<char>
    decreases s.len(),
{
    if from.len() == 0 || s.len() < from.len() {
        s
    } else if s.take(from.len() as int) == from {
        to + replaced(s.skip(from.len() as int), from, to)
    } else {
        seq![s[0]] + replaced(s.drop_first(), from, to)
    }
}

/// The pieces of `s` between the occurrences of `sep`. There is always at
/// least one piece; a piece is empty where two separators meet, or where `s`
/// starts or ends with one.
pub open spec fn split_on(s: Seq<char>, sep: char) -> Seq<Seq<char>>
    decreases s.len(),
{
    if s.len() == 0 {
        seq![Seq::<char>::empty()]
    } else {
        let before = split_on(s.drop_last(), sep);
        if s.last() == sep {
            before.push(Seq::<char>::empty())
        } else {
            before.drop_last().push(before.last().push(s.last()))
        }
    }
}

/// The pieces of `parts` in order, with `sep` between each two.
pub open spec fn join_with(parts: Seq<Seq<char>>, sep: char) -> Seq<char>
    decreases parts.len(),
{
    if parts.len() == 0 {
        Seq::<char>::empty()
    } else if parts.len() == 1 {
        parts[0]
    } else {
        join_with(parts.drop_last(), sep) + seq![sep] + parts.last()
    }
}

/// Whether `s` starts with `prefix`.
pub open spec fn has_prefix(s: Seq<char>, prefix: Seq<char>) -> bool {
    prefix.len() <= s.len() && s.subrange(0, prefix.len() as int) == prefix
}

/// Whether `needle` occurs in `s` as a run of consecutive characters.
pub open spec fn has_infix(s: Seq<char>, needle: Seq<char>) -> bool {
    exists|at: int|
        0 <= at && at + needle.len() <= s.len() && #[trigger] s.subrange(
            at,
            at + needle.len(),
        ) == needle
}

/// The lower-case form of `s`, as `str::to_lowercase` gives it.
pub uninterp spec fn lowercase_of(s: Seq<char>) -> Seq<char>;

/// Calls `str::to_lowercase`, which maps each character by the Unicode
/// property `Lowercase`; the contract only names the outcome.
#[verifier::external_body]
pub(crate) fn lowercase(s: &str) -> (lower: String)
    ensures
        lower@ == lowercase_of(s@),
{
    s.to_lowercase()
}

/// Calls `str::replace`, which puts `to` in place of every match of `from`,
/// found from the left, none overlapping another. An empty `from` matches
/// between all characters and is left out.
#[verifier::external_body]
pub(crate) fn replace_all(s: &str, from: &str, to: &str) -> (out: String)
    requires
        from@.len() > 0,
    ensures
        out@ == replaced(s@, from@, to@),
{
    s.replace(from, to)
}

/// Calls `String::push`, which appends one character.
#[verifier::external_body]
pub(crate) fn push_char(s: &mut String, c: char)
    ensures
        final(s)@ == old(s)@.push(c),
{
    s.push(c)
}

/// Tests whether `c` is white space.
pub fn char_is_white_space(c: char) -> (white: bool)
    ensures
        white == is_white_space(c),
{
    let code: u32 = c as u32;
    (0x09 <= code && code <= 0x0D) || code == 0x20 || code == 0x85 || code == 0xA0 || code
        == 0x1680 || (0x2000 <= code && code <= 0x200A) || code == 0x2028 || code == 0x2029
        || code == 0x202F || code == 0x205F || code == 0x3000
}

/// Returns the characters of `s`.
pub fn chars_of(s: &str) -> (chars: Vec<char>)
    ensures
        chars@ == s@,
{
    let mut chars: Vec<char> = Vec::new();
    for c in it: s.chars()
        invariant
            chars@ == it.seq().take(it.index() as int),
            it.seq() == s@,
    {
        chars.push(c);
    }
    chars
}


/// A string starts with no more white space than it has characters, and
/// ends with no more.
pub proof fn lemma_white_space_len(s: Seq<char>)
    ensures
        leading_white_space(s) <= s.len(),
        trailing_white_space(s) <= s.len(),
        leading_run(s, '#') <= s.len(),
    decreases s.len(),
{
    if s.len() > 0 {
        lemma_white_space_len(s.drop_first());
        lemma_white_space_len(s.drop_last());
    }
}

/// Trimming and stripping do not make a string longer.
pub proof fn lemma_trimmed_len(s: Seq<char>)
    ensures
        trimmed(s).len() <= s.len(),
        without_leading(s, '#').len() <= s.len(),
{
    lemma_white_space_len(s);
    lemma_white_space_len(s.skip(leading_white_space(s) as int));
}

/// A string has at most one piece more than it has characters.
pub proof fn lemma_split_len(s: Seq<char>, sep: char)
    ensures
        1 <= split_on(s, sep).len() <= s.len() + 1,
    decreases s.len(),
{
    if s.len() > 0 {
        lemma_split_len(s.drop_last(), sep);
    }
}

/// Whether `a` comes before `b` in the order of strings: at the first place
/// where they differ `a` has the lesser character, or `a` ends there and `b`
/// goes on.
pub open spec fn lex_less(a: Seq<char>, b: Seq<char>) -> bool
    decreases a.len(),
{
    if b.len() == 0 {
        false
    } else if a.len() == 0 {
        true
    } else if a[0] != b[0] {
        (a[0] as u32) < (b[0] as u32)
    } else {
        lex_less(a.drop_first(), b.drop_first())
    }
}

/// No string comes before itself.
pub proof fn lemma_lex_irreflexive(a: Seq<char>)
    ensures
        !lex_less(a, a),
    decreases a.len(),
{
    if a.len() > 0 {
        lemma_lex_irreflexive(a.drop_first());
    }
}

/// The order of strings is transitive.
pub proof fn lemma_lex_transitive(a: Seq<char>, b: Seq<char>, c: Seq<char>)
    requires
        lex_less(a, b),
        lex_less(b, c),
    ensures
        lex_less(a, c),
    decreases a.len(),
{
    if a.len() > 0 && b.len() > 0 && c.len() > 0 && a[0] == b[0] && b[0] == c[0] {
        lemma_lex_transitive(a.drop_first(), b.drop_first(), c.drop_first());
    }
}

/// Of two different strings one comes before the other.
pub proof fn lemma_lex_total(a: Seq<char>, b: Seq<char>)
    ensures
        lex_less(a, b) || lex_less(b, a) || a == b,
    decreases a.len(),
{
    if a.len() > 0 && b.len() > 0 {
        if a[0] == b[0] {
            lemma_lex_total(a.drop_first(), b.drop_first());
            if a.drop_first() == b.drop_first() {
                assert(a =~= seq![a[0]] + a.drop_first());
                assert(b =~= seq![b[0]] + b.drop_first());
            }
        } else {
            vstd::utf8::char_u32_cast(a[0], a[0] as u32);
            vstd::utf8::char_u32_cast(b[0], b[0] as u32);
            assert((a[0] as u32) != (b[0] as u32)) by {
                if (a[0] as u32) == (b[0] as u32) {
                    assert((a[0] as u32) as char == (b[0] as u32) as char);
                }
            }
        }
    } else if a.len() == 0 && b.len() == 0 {
        assert(a =~= b);
    }
}

/// A string comes before each string that it starts and that goes on.
pub proof fn lemma_lex_prefix(start: Seq<char>, rest: Seq<char>)
    requires
        rest.len() > 0,
    ensures
        lex_less(start, start + rest),
    decreases start.len(),
{
    if start.len() == 0 {
        assert(start + rest =~= rest);
    } else {
        assert((start + rest).drop_first() =~= start.drop_first() + rest);
        lemma_lex_prefix(start.drop_first(), rest);
    }
}

/// Characters without a separator, put behind a string, go to its last
/// piece.
pub proof fn lemma_split_append(s: Seq<char>, tail: Seq<char>, sep: char)
    requires
        !tail.contains(sep),
    ensures
        split_on(s + tail, sep) == split_on(s, sep).drop_last().push(
            split_on(s, sep).last() + tail,
        ),
    decreases tail.len(),
{
    lemma_split_len(s, sep);
    let pieces = split_on(s, sep);
    if tail.len() == 0 {
        assert(s + tail =~= s);
        assert(pieces.last() + tail =~= pieces.last());
        assert(pieces.drop_last().push(pieces.last()) =~= pieces);
    } else {
        let shorter = tail.drop_last();
        assert(!shorter.contains(sep)) by {
            if shorter.contains(sep) {
                let i = choose|i: int| 0 <= i < shorter.len() && shorter[i] == sep;
                assert(tail[i] == sep);
            }
        }
        lemma_split_append(s, shorter, sep);
        assert((s + tail).drop_last() =~= s + shorter);
        assert((s + tail).last() == tail.last());
        assert(tail.contains(tail.last())) by {
            assert(tail[tail.len() - 1] == tail.last());
        }
        let before = split_on(s + shorter, sep);
        assert(before.drop_last() =~= pieces.drop_last());
        assert(before.last().push(tail.last()) =~= pieces.last() + tail);
    }
}

/// Splitting what was joined gives the pieces back, where there is a piece
/// and no piece holds the separator.
pub proof fn lemma_split_join(parts: Seq<Seq<char>>, sep: char)
    requires
        parts.len() > 0,
        forall|i: int| 0 <= i < parts.len() ==> !(#[trigger] parts[i]).contains(sep),
    ensures
        split_on(join_with(parts, sep), sep) == parts,
    decreases parts.len(),
{
    let empty = Seq::<char>::empty();
    if parts.len() == 1 {
        lemma_split_append(empty, parts[0], sep);
        assert(empty + parts[0] =~= parts[0]);
        assert(split_on(empty, sep) =~= seq![empty]);
        assert(seq![empty].drop_last().push(seq![empty].last() + parts[0]) =~= parts);
    } else {
        let head = parts.drop_last();
        lemma_split_join(head, sep);
        let joined = join_with(head, sep) + seq![sep];
        assert(joined.drop_last() =~= join_with(head, sep));
        assert(joined.last() == sep);
        assert(split_on(joined, sep) == head.push(empty));
        lemma_split_append(joined, parts.last(), sep);
        assert(head.push(empty).drop_last() =~= head);
        assert(empty + parts.last() =~= parts.last());
        assert(head.push(parts.last()) =~= parts);
    }
}

/// What is joined of the first pieces comes before what is joined of all,
/// where some piece is left out.
pub proof fn lemma_join_prefix(parts: Seq<Seq<char>>, upto: int, sep: char)
    requires
        1 <= upto < parts.len(),
    ensures
        lex_less(join_with(parts.take(upto), sep), join_with(parts, sep)),
        join_with(parts.take(upto), sep) != join_with(parts, sep),
{
    let rest = lemma_join_extends(parts, upto, sep);
    lemma_lex_prefix(join_with(parts.take(upto), sep), rest);
    lemma_lex_irreflexive(join_with(parts, sep));
}

/// What is joined of all pieces starts with what is joined of the first
/// pieces, and goes on where some piece is left out.
proof fn lemma_join_extends(parts: Seq<Seq<char>>, upto: int, sep: char) -> (rest: Seq<char>)
    requires
        1 <= upto < parts.len(),
    ensures
        rest.len() > 0,
        join_with(parts, sep) == join_with(parts.take(upto), sep) + rest,
    decreases parts.len(),
{
    let head = parts.drop_last();
    let tail = seq![sep] + parts.last();
    assert(join_with(parts, sep) =~= join_with(head, sep) + tail);
    if upto == parts.len() - 1 {
        assert(parts.take(upto) =~= head);
        tail
    } else {
        let inner = lemma_join_extends(head, upto, sep);
        assert(head.take(upto) =~= parts.take(upto));
        assert(join_with(parts, sep) =~= join_with(parts.take(upto), sep) + (inner + tail));
        inner + tail
    }
}

/// No piece of a split string holds the separator.
pub proof fn lemma_split_pieces(s: Seq<char>, sep: char)
    ensures
        forall|i: int|
            0 <= i < split_on(s, sep).len() ==> !(#[trigger] split_on(s, sep)[i]).contains(sep),
    decreases s.len(),
{
    let pieces = split_on(s, sep);
    if s.len() == 0 {
        assert(pieces[0] =~= Seq::<char>::empty());
        assert forall|i: int| 0 <= i < pieces.len() implies !(#[trigger] pieces[i]).contains(
            sep,
        ) by {}
    } else {
        lemma_split_pieces(s.drop_last(), sep);
        lemma_split_len(s.drop_last(), sep);
        let before = split_on(s.drop_last(), sep);
        assert forall|i: int| 0 <= i < pieces.len() implies !(#[trigger] pieces[i]).contains(
            sep,
        ) by {
            if i < pieces.len() - 1 {
                assert(pieces[i] == before[i]);
            } else if s.last() == sep {
                assert(pieces[i] =~= Seq::<char>::empty());
            } else {
                let grown = before.last().push(s.last());
                assert(pieces[i] == grown);
                if grown.contains(sep) {
                    let at = choose|at: int| 0 <= at < grown.len() && grown[at] == sep;
                    if at < before.last().len() {
                        assert(before.last()[at] == sep);
                        assert(before[before.len() - 1].contains(sep));
                    }
                }
            }
        }
    }
}

/// A string that does not start with white space has no leading white
/// space, and one that does not end with it has no trailing white space.
pub proof fn lemma_trimmed_is_trimmed(s: Seq<char>)
    ensures
        trimmed(trimmed(s)) == trimmed(s),
        forall|c: char| trimmed(s).contains(c) ==> s.contains(c),
{
    lemma_white_space_len(s);
    let lead = leading_white_space(s);
    let rest = s.skip(lead as int);
    lemma_white_space_len(rest);
    lemma_leading_stops(s, 0);
    assert(s.skip(0) =~= s);
    let trail = trailing_white_space(rest);
    let out = rest.take(rest.len() - trail);
    lemma_trailing_stops(rest, rest.len() as int);
    assert(rest.take(rest.len() as int) =~= rest);
    assert(out == trimmed(s));
    if out.len() > 0 {
        assert(out[0] == rest[0]);
        assert(!is_white_space(out[0]));
        assert(out.last() == rest[rest.len() - trail - 1]);
        assert(!is_white_space(out.last()));
        assert(leading_white_space(out) == 0);
        assert(out.skip(0) =~= out);
        assert(trailing_white_space(out) == 0);
        assert(out.take(out.len() as int) =~= out);
    } else {
        assert(out.skip(0) =~= out);
        assert(out.take(0) =~= out);
    }
    assert forall|c: char| out.contains(c) implies s.contains(c) by {
        let i = choose|i: int| 0 <= i < out.len() && out[i] == c;
        assert(s[lead + i] == c);
    }
}

/// The leading white space of a string ends before a character that is
/// none, or at the end of the string.
proof fn lemma_leading_stops(s: Seq<char>, from: int)
    requires
        0 <= from <= s.len(),
    ensures
        from + leading_white_space(s.skip(from)) <= s.len(),
        from + leading_white_space(s.skip(from)) < s.len() ==> !is_white_space(
            s[from + leading_white_space(s.skip(from))],
        ),
    decreases s.len() - from,
{
    let rest = s.skip(from);
    if rest.len() > 0 && is_white_space(rest[0]) {
        assert(rest.drop_first() =~= s.skip(from + 1));
        lemma_leading_stops(s, from + 1);
    }
}

/// The trailing white space of a string starts behind a character that is
/// none, or at the start of the string.
proof fn lemma_trailing_stops(s: Seq<char>, upto: int)
    requires
        0 <= upto <= s.len(),
    ensures
        trailing_white_space(s.take(upto)) <= upto,
        trailing_white_space(s.take(upto)) < upto ==> !is_white_space(
            s[upto - trailing_white_space(s.take(upto)) - 1],
        ),
    decreases upto,
{
    let front = s.take(upto);
    if front.len() > 0 && is_white_space(front.last()) {
        assert(front.drop_last() =~= s.take(upto - 1));
        lemma_trailing_stops(s, upto - 1);
    }
}

/// The view of each string of `strings`, in order.
pub open spec fn views_of(strings: Seq<String>) -> Seq<Seq<char>> {
    strings.map_values(|s: String| s@)
}

/// Returns `s` without its leading and trailing white space.
pub fn trim(s: &str) -> (out: String)
    ensures
        out@ == trimmed(s@),
{
    let chars = chars_of(s);
    let n = chars.len();
    let mut from: usize = 0;
    assert(chars@.skip(0) =~= chars@);
    while from < n && char_is_white_space(chars[from])
        invariant
            from <= n,
            n == chars@.len(),
            leading_white_space(chars@) == from + leading_white_space(chars@.skip(from as int)),
        decreases n - from,
    {
        assert(chars@.skip(from as int).drop_first() =~= chars@.skip(from + 1));
        from = from + 1;
    }
    let ghost rest = chars@.skip(from as int);
    let mut to: usize = n;
    assert(rest.take(n - from) =~= rest);
    while to > from && char_is_white_space(chars[to - 1])
        invariant
            from <= to <= n,
            n == chars@.len(),
            rest == chars@.skip(from as int),
            trailing_white_space(rest) == (n - to) + trailing_white_space(rest.take(to - from)),
        decreases to,
    {
        assert(rest.take(to - from).drop_last() =~= rest.take(to - 1 - from));
        to = to - 1;
    }
    assert(rest.take(to - from) =~= s@.subrange(from as int, to as int));
    String::from_str(s.substring_char(from, to))
}

/// Returns `s` without the run of `c` that it starts with.
pub fn strip_leading(s: &str, c: char) -> (out: String)
    ensures
        out@ == without_leading(s@, c),
{
    let chars = chars_of(s);
    let n = chars.len();
    let mut from: usize = 0;
    assert(chars@.skip(0) =~= chars@);
    while from < n && chars[from] == c
        invariant
            from <= n,
            n == chars@.len(),
            leading_run(chars@, c) == from + leading_run(chars@.skip(from as int), c),
        decreases n - from,
    {
        assert(chars@.skip(from as int).drop_first() =~= chars@.skip(from + 1));
        from = from + 1;
    }
    assert(s@.skip(from as int) =~= s@.subrange(from as int, n as int));
    String::from_str(s.substring_char(from, n))
}

/// Returns `s` without the run of `c` that it ends with.
pub fn strip_trailing(s: &str, c: char) -> (out: String)
    ensures
        out@ == without_trailing(s@, c),
{
    let chars = chars_of(s);
    let n = chars.len();
    let mut to: usize = n;
    assert(chars@.take(n as int) =~= chars@);
    while to > 0 && chars[to - 1] == c
        invariant
            to <= n,
            n == chars@.len(),
            trailing_run(chars@, c) == (n - to) + trailing_run(chars@.take(to as int), c),
        decreases to,
    {
        assert(chars@.take(to as int).drop_last() =~= chars@.take(to - 1));
        to = to - 1;
    }
    assert(s@.take(to as int) =~= s@.subrange(0, to as int));
    String::from_str(s.substring_char(0, to))
}

/// Splits `s` at each occurrence of `sep`.
pub fn split(s: &str, sep: char) -> (pieces: Vec<String>)
    ensures
        views_of(pieces@) == split_on(s@, sep),
{
    let chars = chars_of(s);
    let n = chars.len();
    let mut pieces: Vec<String> = Vec::new();
    let mut start: usize = 0;
    let mut i: usize = 0;
    assert(chars@.take(0) =~= Seq::<char>::empty());
    assert(views_of(pieces@).push(chars@.subrange(0, 0)) =~= seq![Seq::<char>::empty()]);
    while i < n
        invariant
            start <= i <= n,
            n == chars@.len(),
            chars@ == s@,
            split_on(chars@.take(i as int), sep) == views_of(pieces@).push(
                chars@.subrange(start as int, i as int),
            ),
        decreases n - i,
    {
        let ghost upto = chars@.take(i + 1);
        let ghost before = split_on(chars@.take(i as int), sep);
        assert(upto.drop_last() =~= chars@.take(i as int));
        assert(upto.last() == chars@[i as int]);
        if chars[i] == sep {
            let piece = String::from_str(s.substring_char(start, i));
            let ghost old_pieces = pieces@;
            pieces.push(piece);
            assert(views_of(pieces@) =~= views_of(old_pieces).push(
                chars@.subrange(start as int, i as int),
            ));
            start = i + 1;
            assert(chars@.subrange(start as int, start as int) =~= Seq::<char>::empty());
        } else {
            assert(before.drop_last() =~= views_of(pieces@));
            assert(before.last().push(chars@[i as int]) =~= chars@.subrange(
                start as int,
                i + 1,
            ));
        }
        i = i + 1;
    }
    assert(chars@.take(n as int) =~= chars@);
    let piece = String::from_str(s.substring_char(start, n));
    let ghost old_pieces = pieces@;
    pieces.push(piece);
    assert(views_of(pieces@) =~= views_of(old_pieces).push(
        chars@.subrange(start as int, n as int),
    ));
    pieces
}

/// Joins `parts` with `sep` between each two.
pub fn join(parts: &Vec<String>, sep: char) -> (out: String)
    ensures
        out@ == join_with(views_of(parts@), sep),
{
    let mut out = String::new();
    let mut i: usize = 0;
    assert(views_of(parts@).take(0) =~= Seq::<Seq<char>>::empty());
    while i < parts.len()
        invariant
            i <= parts.len(),
            out@ == join_with(views_of(parts@).take(i as int), sep),
        decreases parts.len() - i,
    {
        let ghost upto = views_of(parts@).take(i + 1);
        assert(upto.drop_last() =~= views_of(parts@).take(i as int));
        assert(upto.last() == parts@[i as int]@);
        if i > 0 {
            push_char(&mut out, sep);
            assert(out@ =~= join_with(upto.drop_last(), sep) + seq![sep]);
        } else {
            assert(upto[0] == parts@[0]@);
            assert(out@ =~= Seq::<char>::empty());
        }
        out.append(parts[i].as_str());
        assert(out@ =~= join_with(upto, sep));
        i = i + 1;
    }
    assert(views_of(parts@).take(parts.len() as int) =~= views_of(parts@));
    out
}

/// Tests whether the characters of `needle` stand in `chars` from index `at` on.
fn matches_at(chars: &Vec<char>, needle: &Vec<char>, at: usize) -> (found: bool)
    requires
        at + needle@.len() <= chars@.len(),
    ensures
        found == (chars@.subrange(at as int, at + needle@.len()) == needle@),
{
    let mut k: usize = 0;
    while k < needle.len()
        invariant
            k <= needle@.len(),
            at + needle@.len() <= chars.len(),
            forall|j: int| 0 <= j < k ==> chars@[at + j] == needle@[j],
        decreases needle.len() - k,
    {
        if chars[at + k] != needle[k] {
            assert(chars@.subrange(at as int, at + needle@.len())[k as int] != needle@[k as int]);
            return false;
        }
        k = k + 1;
    }
    assert(chars@.subrange(at as int, at + needle@.len()) =~= needle@);
    true
}

/// Tests whether `s` starts with `prefix`.
pub fn starts_with(s: &str, prefix: &str) -> (found: bool)
    ensures
        found == has_prefix(s@, prefix@),
{
    let chars = chars_of(s);
    let wanted = chars_of(prefix);
    if wanted.len() > chars.len() {
        return false;
    }
    matches_at(&chars, &wanted, 0)
}

/// Tests whether `needle` occurs in `s`.
pub fn contains(s: &str, needle: &str) -> (found: bool)
    ensures
        found == has_infix(s@, needle@),
{
    let chars = chars_of(s);
    let wanted = chars_of(needle);
    if wanted.len() > chars.len() {
        return false;
    }
    let last: usize = chars.len() - wanted.len();
    let mut at: usize = 0;
    loop
        invariant
            at <= last,
            last == chars@.len() - wanted@.len(),
            chars@ == s@,
            wanted@ == needle@,
            forall|j: int|
                0 <= j < at ==> #[trigger] chars@.subrange(j, j + wanted@.len()) != wanted@,
        decreases last - at,
    {
        if matches_at(&chars, &wanted, at) {
            return true;
        }
        if at == last {
            return false;
        }
        at = at + 1;
    }
}

/// Tests whether `a` comes before `b` in the order of strings.
pub fn precedes(a: &str, b: &str) -> (before: bool)
    ensures
        before == lex_less(a@, b@),
{
    let left = chars_of(a);
    let right = chars_of(b);
    let mut i: usize = 0;
    assert(left@.skip(0) =~= left@);
    assert(right@.skip(0) =~= right@);
    loop
        invariant
            i <= left.len(),
            i <= right.len(),
            left@ == a@,
            right@ == b@,
            lex_less(a@, b@) == lex_less(left@.skip(i as int), right@.skip(i as int)),
        decreases left.len() - i,
    {
        if i >= right.len() {
            return false;
        }
        if i >= left.len() {
            return true;
        }
        if left[i] != right[i] {
            return (left[i] as u32) < (right[i] as u32);
        }
        assert(left@.skip(i as int).drop_first() =~= left@.skip(i + 1));
        assert(right@.skip(i as int).drop_first() =~= right@.skip(i + 1));
        i = i + 1;
    }
}

/// The character of the decimal digit `digit`.
pub open spec fn digit_char(digit: nat) -> char {
    ((0x30 + digit % 10) as u8) as char
}

/// `n` in decimal.
pub open spec fn decimal_digits(n: nat) -> Seq<char>
    decreases n,
{
    if n < 10 {
        seq![digit_char(n)]
    } else {
        decimal_digits(n / 10).push(digit_char(n % 10))
    }
}

/// Appends `n` in decimal to `out`.
pub fn push_decimal(out: &mut String, n: u64)
    ensures
        final(out)@ == old(out)@ + decimal_digits(n as nat),
    decreases n,
{
    if n >= 10 {
        push_decimal(out, n / 10);
    }
    let digit: u8 = (n % 10) as u8;
    push_char(out, (0x30 + digit) as char);
    assert(out@ =~= old(out)@ + decimal_digits(n as nat));
}

/// Cuts `input` in two at the character index `char_index`: the first part
/// holds exactly `char_index` characters. Returns `None` where `input` has
/// fewer characters than that.
pub fn split_at_char(input: &str, char_index: usize) -> (parts: Option<(String, String)>)
    ensures
        char_index > input@.len() ==> parts is None,
        char_index <= input@.len() ==> (parts matches Some(pair) && pair.0@ == input@.take(
            char_index as int,
        ) && pair.1@ == input@.skip(char_index as int)),
{
    let count = input.unicode_len();
    if char_index > count {
        return None;
    }
    let left = String::from_str(input.substring_char(0, char_index));
    let right = String::from_str(input.substring_char(char_index, count));
    assert(input@.subrange(0, char_index as int) =~= input@.take(char_index as int));
    assert(input@.subrange(char_index as int, count as int) =~= input@.skip(char_index as int));
    Some((left, right))
}

} // verus!
