//! What the lines of a guard file require.
use crate::chars::{
    ascii_lowered, blank_between, first_at, is_white_space, lemma_first_at,
    lemma_first_at_is, trimmed, trimming_finds_what_stands_in_white_space,
    trimming_takes_off_white_space_alone, up_to,
};
use crate::gate_laws::{joined, lemma_first_line};
use crate::guard_file::{
    line_view, lowercase_text, required_in, setting_adds, value_text, LineView,
};
use vstd::prelude::*;

verus! {

/// The lowercase form of a key changes the letters `A` to `Z` to `a` to `z`, and no other
/// character.
pub proof fn lowering_changes_ascii_letters_alone(s: Seq<char>, i: int)
    requires
        0 <= i < s.len(),
    ensures
        ascii_lowered(s).len() == s.len(),
        'A' <= s[i] <= 'Z' ==> ascii_lowered(s)[i] as u32 == s[i] as u32 + 32,
        !('A' <= s[i] <= 'Z') ==> ascii_lowered(s)[i] == s[i],
{
}

/// A line in square brackets, with white space around them or not, requires nothing itself, and
/// the lines behind it stand in the section that it names, without white space around the name and
/// in lower case.
pub proof fn headers_open_their_section(
    section: Seq<char>,
    line: Seq<char>,
    from: int,
    to: int,
    rest: Seq<char>,
)
    requires
        !line.contains('\n'),
        0 <= from && from + 2 <= to <= line.len(),
        blank_between(line, 0, from),
        blank_between(line, to, line.len() as int),
        line[from] == '[',
        line[to - 1] == ']',
    ensures
        required_in(section, joined(line, rest)) == required_in(
            lowercase_text(trimmed(line.subrange(from + 1, to - 1))),
            rest,
        ),
        required_in(section, line) == Seq::<Seq<char>>::empty(),
{
    trimming_finds_what_stands_in_white_space(line, from, to);
    let s = trimmed(line);
    assert(s.subrange(1, s.len() - 1) =~= line.subrange(from + 1, to - 1));
    assert(line_view(line) == LineView::Section(trimmed(line.subrange(from + 1, to - 1))));
    lemma_first_line(line, rest);
    assert(required_in(section, joined(line, rest)) =~= required_in(
        lowercase_text(trimmed(line.subrange(from + 1, to - 1))),
        rest,
    ));
    lemma_whole_line(line);
}

proof fn lemma_whole_line(line: Seq<char>)
    requires
        !line.contains('\n'),
    ensures
        first_at(line, '\n') == line.len(),
        line.take(line.len() as int) == line,
{
    assert forall|i: int| 0 <= i < line.len() implies line[i] != '\n' by {
        assert(line.contains(line[i]));
    }
    lemma_first_at_is(line, '\n', line.len() as int);
    assert(line.take(line.len() as int) =~= line);
}

/// Cutting off white space at one end first changes nothing of what trimming leaves.
proof fn lemma_trimmed_part(s: Seq<char>, from: int, to: int)
    requires
        0 <= from <= to <= s.len(),
        blank_between(s, 0, from),
        blank_between(s, to, s.len() as int),
    ensures
        trimmed(s.subrange(from, to)) == trimmed(s),
{
    let t = s.subrange(from, to);
    let inner = trimming_takes_off_white_space_alone(t);
    if inner.0 < inner.1 {
        assert forall|i: int| 0 <= i < from + inner.0 implies is_white_space(#[trigger] s[i]) by {
            if i >= from {
                assert(t[i - from] == s[i]);
            }
        }
        assert forall|i: int| from + inner.1 <= i < s.len() implies is_white_space(
            #[trigger] s[i],
        ) by {
            if i < to {
                assert(t[i - from] == s[i]);
            }
        }
        assert(s[from + inner.0] == t[inner.0] && s[from + inner.1 - 1] == t[inner.1 - 1]);
        trimming_finds_what_stands_in_white_space(s, from + inner.0, from + inner.1);
        assert(s.subrange(from + inner.0, from + inner.1) =~= t.subrange(inner.0, inner.1));
    } else {
        let outer = trimming_takes_off_white_space_alone(s);
        if outer.0 < outer.1 {
            let i = outer.0;
            assert(from <= i < to) by {
                if i < from {
                    assert(is_white_space(s[i]));
                }
                if i >= to {
                    assert(is_white_space(s[i]));
                }
            }
            assert(t[i - from] == s[i]);
            if i - from < inner.0 {
                assert(is_white_space(t[i - from]));
            } else {
                assert(is_white_space(t[i - from]));
            }
        }
        assert(trimmed(t) =~= trimmed(s));
    }
}

/// A setting, a key and a value around the first equals sign of a line, requires the text of its
/// value exactly in the section `checks`, under the key `required` in letters of any case, and
/// where that text is not empty; in any other place it requires nothing. The section stays.
pub proof fn settings_require_their_value(
    section: Seq<char>,
    key: Seq<char>,
    value: Seq<char>,
    rest: Seq<char>,
)
    requires
        !key.contains('\n') && !key.contains('='),
        !value.contains('\n'),
        trimmed(key).len() > 0,
        trimmed(key)[0] != '#' && trimmed(key)[0] != ';',
        trimmed(key)[0] == '[' ==> trimmed(key + seq!['='] + value).last() != ']',
    ensures
        ({
            let line = key + seq!['='] + value;
            let text = value_text(trimmed(value));
            let adds = section == "checks"@ && ascii_lowered(trimmed(key)) == "required"@
                && text.len() > 0;
            &&& adds ==> required_in(section, joined(line, rest)) == seq![text] + required_in(
                section,
                rest,
            )
            &&& !adds ==> required_in(section, joined(line, rest)) == required_in(section, rest)
            &&& adds ==> required_in(section, line) == seq![text]
            &&& !adds ==> required_in(section, line) == Seq::<Seq<char>>::empty()
        }),
{
    let line = key + seq!['='] + value;
    let n = key.len() as int;
    assert(!line.contains('\n')) by {
        if line.contains('\n') {
            let i = choose|i: int| 0 <= i < line.len() && line[i] == '\n';
            if i < n {
                assert(key[i] == '\n');
            } else if i > n {
                assert(value[i - n - 1] == '\n');
            }
        }
    }
    assert(line[n] == '=');
    let ks = trimming_takes_off_white_space_alone(key);
    let span = trimming_takes_off_white_space_alone(line);
    let s = trimmed(line);
    assert(ks.0 < ks.1);
    assert(line[ks.0] == key[ks.0]);
    assert(span.0 <= ks.0) by {
        if span.0 > ks.0 {
            assert(is_white_space(line[ks.0]));
        }
    }
    assert(span.0 >= ks.0) by {
        if span.0 < ks.0 {
            assert(line[span.0] == key[span.0]);
            assert(is_white_space(key[span.0]));
        }
    }
    assert(span.1 > n) by {
        if span.1 <= n {
            assert(is_white_space(line[n]));
        }
    }
    let from = span.0;
    let to = span.1;
    assert(s[0] == trimmed(key)[0]);
    let eq = n - from;
    assert(s[eq] == '=');
    assert forall|i: int| 0 <= i < eq implies s[i] != '=' by {
        assert(s[i] == key[from + i]);
        assert(key.contains(key[from + i]));
    }
    lemma_first_at_is(s, '=', eq);
    assert(s.take(eq) =~= key.subrange(from, n));
    lemma_trimmed_part(key, from, n);
    assert(s.skip(eq + 1) =~= value.subrange(0, to - n - 1));
    assert forall|i: int| to - n - 1 <= i < value.len() implies is_white_space(
        #[trigger] value[i],
    ) by {
        assert(line[i + n + 1] == value[i]);
    }
    lemma_trimmed_part(value, 0, to - n - 1);
    assert(line_view(line) == LineView::Setting(trimmed(key), trimmed(value)));
    lemma_first_line(line, rest);
    lemma_whole_line(line);
    let here = setting_adds(section, trimmed(key), trimmed(value));
    assert(required_in(section, joined(line, rest)) == here + required_in(section, rest));
    assert(Seq::<Seq<char>>::empty() + required_in(section, rest) =~= required_in(section, rest));
}

/// A line that is no header and has no equals sign requires nothing, and the section stays.
pub proof fn other_lines_require_nothing(section: Seq<char>, line: Seq<char>, rest: Seq<char>)
    requires
        !line.contains('\n') && !line.contains('='),
        trimmed(line).len() > 0 && trimmed(line)[0] == '[' ==> trimmed(line).len() == 1 || trimmed(
            line,
        ).last() != ']',
    ensures
        required_in(section, joined(line, rest)) == required_in(section, rest),
        required_in(section, line) == Seq::<Seq<char>>::empty(),
{
    let s = trimmed(line);
    let span = trimming_takes_off_white_space_alone(line);
    assert forall|i: int| 0 <= i < s.len() implies s[i] != '=' by {
        assert(s[i] == line[span.0 + i]);
        assert(line.contains(line[span.0 + i]));
    }
    lemma_first_at_is(s, '=', s.len() as int);
    assert(line_view(line) == LineView::Nothing);
    lemma_first_line(line, rest);
    lemma_whole_line(line);
    assert(required_in(section, joined(line, rest)) =~= required_in(section, rest));
}

proof fn lemma_up_to(a: Seq<char>, c: char, b: Seq<char>)
    requires
        !a.contains(c),
    ensures
        up_to(a, c) == a,
        up_to(a + seq![c] + b, c) == a,
{
    let n = a.len() as int;
    let s = a + seq![c] + b;
    assert forall|i: int| 0 <= i < n implies a[i] != c by {
        assert(a.contains(a[i]));
    }
    assert forall|i: int| 0 <= i < n implies s[i] != c by {
        assert(s[i] == a[i]);
    }
    assert(s[n] == c);
    lemma_first_at_is(a, c, n);
    lemma_first_at_is(s, c, n);
    assert(a.take(n) =~= a);
    assert(s.take(n) =~= a);
}

/// A value in quotes is what stands between them, whatever stands behind, a comment sign inside
/// them too; a quote that is not closed goes to the end of the line.
pub proof fn quoted_values_are_what_stands_in_quotes(inside: Seq<char>, behind: Seq<char>)
    requires
        !inside.contains('"'),
    ensures
        value_text(seq!['"'] + inside + seq!['"'] + behind) == inside,
        value_text(seq!['"'] + inside) == inside,
{
    lemma_up_to(inside, '"', behind);
    let closed = seq!['"'] + inside + seq!['"'] + behind;
    assert(closed.skip(1) =~= inside + seq!['"'] + behind);
    assert((seq!['"'] + inside).skip(1) =~= inside);
    assert(closed[0] == '"');
    assert((seq!['"'] + inside)[0] == '"');
}

/// A value without quotes is its text without white space around it, up to where a comment begins
/// with either sign.
pub proof fn plain_values_end_at_a_comment(plain: Seq<char>, sign: char, comment: Seq<char>)
    requires
        !plain.contains('#') && !plain.contains(';'),
        plain.len() > 0 ==> plain[0] != '"',
        sign == '#' || sign == ';',
    ensures
        value_text(plain) == trimmed(plain),
        value_text(plain + seq![sign] + comment) == trimmed(plain),
{
    let whole = plain + seq![sign] + comment;
    lemma_up_to(plain, '#', comment);
    lemma_up_to(plain, ';', comment);
    assert(whole[0] != '"') by {
        if plain.len() > 0 {
            assert(whole[0] == plain[0]);
        } else {
            assert(whole[0] == sign);
        }
    }
    if sign == ';' {
        lemma_first_at(whole, '#');
        let head = up_to(whole, '#');
        let at = first_at(whole, '#');
        assert(at > plain.len()) by {
            if at < plain.len() {
                assert(whole[at] == plain[at]);
                assert(plain.contains(plain[at]));
            }
            if at == plain.len() {
                assert(whole[at] == ';');
            }
        }
        let tail = comment.take(at - plain.len() - 1);
        assert(head =~= plain + seq![';'] + tail);
        lemma_up_to(plain, ';', tail);
    }
}

/// A value without a key requires nothing.
pub proof fn keyless_settings_require_nothing(
    section: Seq<char>,
    blank: Seq<char>,
    value: Seq<char>,
    rest: Seq<char>,
)
    requires
        !blank.contains('\n'),
        !value.contains('\n'),
        blank_between(blank, 0, blank.len() as int),
    ensures
        required_in(section, joined(blank + seq!['='] + value, rest)) == required_in(section, rest),
{
    let line = blank + seq!['='] + value;
    let n = blank.len() as int;
    assert(!line.contains('\n')) by {
        if line.contains('\n') {
            let i = choose|i: int| 0 <= i < line.len() && line[i] == '\n';
            if i < n {
                assert(blank[i] == '\n');
            } else if i > n {
                assert(value[i - n - 1] == '\n');
            }
        }
    }
    assert(line[n] == '=');
    let span = trimming_takes_off_white_space_alone(line);
    assert(span.0 == n) by {
        if span.0 < n {
            assert(line[span.0] == blank[span.0]);
            if span.0 >= span.1 {
                assert(is_white_space(line[n]));
            }
        }
        if span.0 > n {
            assert(is_white_space(line[n]));
        }
    }
    assert(span.1 > n) by {
        if span.1 <= n {
            assert(is_white_space(line[n]));
        }
    }
    let s = trimmed(line);
    assert(s[0] == '=');
    lemma_first_at_is(s, '=', 0);
    assert(s.take(0) =~= Seq::<char>::empty());
    assert(trimmed(Seq::<char>::empty()) =~= Seq::<char>::empty());
    assert(ascii_lowered(Seq::<char>::empty()).len() == 0);
    reveal_strlit("required");
    lemma_first_line(line, rest);
    assert(required_in(section, joined(line, rest)) =~= required_in(section, rest));
}

} // verus!
