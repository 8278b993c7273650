//! The `.github-guard` file: which checks a repository requires.
//!
//! The file is in git-config format. A section header stands in square brackets, a setting is a
//! key, an equals sign and a value, and a line whose first character is `#` or `;` is a comment:
//! what a comment says of a requirement is not a requirement.
use crate::chars::{
    ascii_lowercase, ascii_lowered, chars_of, first_at, lemma_first_at, part, position, position_from, same,
    text_of, texts, trim, trimmed, up_to,
};
use vstd::prelude::*;
use vstd::string::*;

verus! {

/// What `str::to_lowercase` returns.
pub uninterp spec fn lowercase_text(s: Seq<char>) -> Seq<char>;

/// `str::to_lowercase`: the text in lower case, letter by letter as Unicode has it. Of an ASCII
/// text that is the ASCII letters in lower case.
pub assume_specification[ str::to_lowercase ](s: &str) -> (r: String)
    ensures
        r@ == lowercase_text(s@),
        (forall|i: int| 0 <= i < s@.len() ==> (#[trigger] s@[i] as u32) < 128) ==> r@
            == ascii_lowered(s@),
;

/// What one line of the file is.
pub enum LineView {
    /// Empty, a comment, or nothing that the format knows.
    Nothing,
    /// A section header, and the name in it.
    Section(Seq<char>),
    /// A setting: what stands in front of the first equals sign, and what behind.
    Setting(Seq<char>, Seq<char>),
}

/// What one line of the file is.
pub open spec fn line_view(line: Seq<char>) -> LineView {
    let s = trimmed(line);
    if s.len() == 0 || s[0] == '#' || s[0] == ';' {
        LineView::Nothing
    } else if s.len() >= 2 && s[0] == '[' && s.last() == ']' {
        LineView::Section(trimmed(s.subrange(1, s.len() - 1)))
    } else if first_at(s, '=') < s.len() {
        LineView::Setting(
            trimmed(s.take(first_at(s, '='))),
            trimmed(s.skip(first_at(s, '=') + 1)),
        )
    } else {
        LineView::Nothing
    }
}

/// The text of a setting's value. Quotes are taken off, with anything behind the closing one;
/// a value without them ends where a comment begins.
pub open spec fn value_text(value: Seq<char>) -> Seq<char> {
    if value.len() > 0 && value[0] == '"' {
        up_to(value.skip(1), '"')
    } else {
        trimmed(up_to(up_to(value, '#'), ';'))
    }
}

/// The checks that one setting adds, in a section whose name in lower case is `section`.
pub open spec fn setting_adds(section: Seq<char>, key: Seq<char>, value: Seq<char>) -> Seq<
    Seq<char>,
> {
    if section == "checks"@ && ascii_lowered(key) == "required"@ && value_text(value).len() > 0 {
        seq![value_text(value)]
    } else {
        Seq::empty()
    }
}

/// The checks required by the lines of `text`, where the section before it is `section`.
pub open spec fn required_in(section: Seq<char>, text: Seq<char>) -> Seq<Seq<char>>
    decreases text.len(),
{
    let end = first_at(text, '\n');
    let here = match line_view(text.take(end)) {
        LineView::Setting(key, value) => setting_adds(section, key, value),
        _ => Seq::empty(),
    };
    let next = match line_view(text.take(end)) {
        LineView::Section(name) => lowercase_text(name),
        _ => section,
    };
    if 0 <= end < text.len() {
        here + required_in(next, text.skip(end + 1))
    } else {
        here
    }
}

/// What one line of the file is.
pub enum Line {
    Nothing,
    Section(Vec<char>),
    Setting(Vec<char>, Vec<char>),
}

impl Line {
    pub open spec fn view(&self) -> LineView {
        match self {
            Line::Nothing => LineView::Nothing,
            Line::Section(name) => LineView::Section(name@),
            Line::Setting(key, value) => LineView::Setting(key@, value@),
        }
    }
}

/// What one line of the file is.
pub fn read_line(line: &[char]) -> (r: Line)
    ensures
        r.view() == line_view(line@),
{
    let s = trim(line);
    let n: usize = s.len();
    if n == 0 || s[0] == '#' || s[0] == ';' {
        return Line::Nothing;
    }
    if n >= 2 && s[0] == '[' && s[n - 1] == ']' {
        let inside = part(s.as_slice(), 1, n - 1);
        return Line::Section(trim(inside.as_slice()));
    }
    let eq: usize = position(s.as_slice(), '=');
    proof {
        lemma_first_at(s@, '=');
    }
    if eq < n {
        let key = part(s.as_slice(), 0, eq);
        let value = part(s.as_slice(), eq + 1, n);
        assert(key@ =~= s@.take(eq as int));
        assert(value@ =~= s@.skip(eq + 1));
        return Line::Setting(trim(key.as_slice()), trim(value.as_slice()));
    }
    Line::Nothing
}

/// The text of a setting's value.
pub fn read_value(value: &[char]) -> (r: String)
    ensures
        r@ == value_text(value@),
{
    if value.len() > 0 && value[0] == '"' {
        let rest = part(value, 1, value.len());
        assert(rest@ =~= value@.skip(1));
        let end: usize = position(rest.as_slice(), '"');
        proof {
            lemma_first_at(rest@, '"');
        }
        let inside = part(rest.as_slice(), 0, end);
        assert(inside@ =~= up_to(value@.skip(1), '"'));
        text_of(inside.as_slice())
    } else {
        let hash: usize = position(value, '#');
        proof {
            lemma_first_at(value@, '#');
        }
        let head = part(value, 0, hash);
        assert(head@ =~= up_to(value@, '#'));
        let semicolon: usize = position(head.as_slice(), ';');
        proof {
            lemma_first_at(head@, ';');
        }
        let bare = part(head.as_slice(), 0, semicolon);
        assert(bare@ =~= up_to(head@, ';'));
        let bare = trim(bare.as_slice());
        text_of(bare.as_slice())
    }
}

/// The check that one setting adds, in a section whose name in lower case is `section`.
pub fn setting_requires(section: &str, key: &[char], value: &[char]) -> (r: Option<String>)
    ensures
        match r {
            Some(check) => setting_adds(section@, key@, value@) == seq![check@],
            None => setting_adds(section@, key@, value@) == Seq::<Seq<char>>::empty(),
        },
{
    let name = chars_of(section);
    if !same(name.as_slice(), "checks") {
        return None;
    }
    let key = ascii_lowercase(key);
    if !same(key.as_slice(), "required") {
        return None;
    }
    let text = read_value(value);
    if text.as_str().unicode_len() == 0 {
        return None;
    }
    Some(text)
}

/// The checks that the file declares as required, in their order.
pub fn required_checks(text: &str) -> (r: Vec<String>)
    ensures
        texts(r@) == required_in(Seq::empty(), text@),
{
    let chars = chars_of(text);
    let mut section = String::new();
    assert(section@ =~= Seq::<char>::empty());
    let mut out: Vec<String> = Vec::new();
    let mut from: usize = 0;
    assert(texts(out@) =~= Seq::<Seq<char>>::empty());
    assert(chars@.skip(0) =~= text@);
    assert(required_in(Seq::empty(), text@) =~= texts(out@) + required_in(section@, chars@.skip(0)));
    loop
        invariant
            from <= chars@.len(),
            required_in(Seq::empty(), text@) == texts(out@) + required_in(
                section@,
                chars@.skip(from as int),
            ),
        decreases chars@.len() - from,
    {
        let ghost rest = chars@.skip(from as int);
        let end: usize = position_from(chars.as_slice(), from, '\n');
        let line = part(chars.as_slice(), from, end);
        assert(line@ =~= rest.take(end - from));
        let ghost out0 = texts(out@);
        let ghost section0 = section@;
        let line = read_line(line.as_slice());
        match line {
            Line::Nothing => {},
            Line::Section(name) => {
                let name = text_of(name.as_slice());
                section = name.as_str().to_lowercase();
            },
            Line::Setting(key, value) => {
                match setting_requires(section.as_str(), key.as_slice(), value.as_slice()) {
                    Some(check) => {
                        out.push(check);
                        assert(texts(out@) =~= out0 + seq![check@]);
                    },
                    None => {},
                }
            },
        }
        let ghost here = match line_view(rest.take(end - from)) {
            LineView::Setting(key, value) => setting_adds(section0, key, value),
            _ => Seq::empty(),
        };
        assert(texts(out@) =~= out0 + here);
        if end >= chars.len() {
            assert(required_in(section0, rest) == here);
            return out;
        }
        let ghost tail = chars@.skip(end + 1);
        assert(tail =~= rest.skip(end - from + 1));
        assert(required_in(section0, rest) == here + required_in(section@, tail));
        assert(out0 + (here + required_in(section@, tail)) =~= (out0 + here) + required_in(
            section@,
            tail,
        ));
        from = end + 1;
    }
}

} // verus!
