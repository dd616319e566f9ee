//! Overload quotes: the embedded text, its parser and the choice of a pool by
//! system locale.

use vstd::prelude::*;

use crate::text::{chars_of, starts_with, starts_with_at, trim, trim_bounds};

verus! {

/// The quote file: `#` starts a comment, and two special comments start the
/// Russian and the English section. The quotes themselves were written for
/// this library, seventeen in each language.
pub const ALL_QUOTES: &'static str =
    "# Russian Quotes\n\
Опять греем вселенную?\n\
Вентиляторы передают привет.\n\
Я кулер, а не волшебник.\n\
Закрой хотя бы одну вкладку.\n\
Видеокарта просит отпуск.\n\
Это рендер или крик о помощи?\n\
Сто процентов? Серьёзно?\n\
Память кончилась, совесть тоже.\n\
На мне уже можно жарить яичницу.\n\
Термопаста плачет.\n\
Снова майнишь? Я всё вижу.\n\
Дай остыть, изверг.\n\
Счётчик крутится быстрее помпы.\n\
Я не подписывался на это.\n\
Помпа гудит, терпение тает.\n\
Ещё кадр, и я ухожу.\n\
Охлаждаю как могу.\n\
\n\
# English Quotes\n\
Heating the universe again?\n\
The fans send their regards.\n\
I am a cooler, not a miracle.\n\
Close one tab. Just one.\n\
Your GPU would like a vacation.\n\
Is this a render or a cry for help?\n\
A hundred percent? Really?\n\
Out of memory, out of mercy.\n\
You could fry an egg on me.\n\
The thermal paste is crying.\n\
Mining again? I see everything.\n\
Let me cool down, you monster.\n\
The power meter outruns the pump.\n\
I did not sign up for this.\n\
The pump hums, my patience melts.\n\
One more frame and I walk.\n\
Cooling as hard as I can.\n";

/// The pieces of `s` between newlines.
pub open spec fn split_lines(s: Seq<char>) -> Seq<Seq<char>>
    decreases s.len(),
{
    if s.len() == 0 {
        seq![Seq::empty()]
    } else {
        let front = split_lines(s.drop_last());
        if s.last() == '\n' {
            front.push(Seq::empty())
        } else {
            front.drop_last().push(front.last().push(s.last()))
        }
    }
}

/// Each piece without the white space around it.
pub open spec fn trim_all(lines: Seq<Seq<char>>) -> Seq<Seq<char>> {
    Seq::new(lines.len(), |i: int| trim(lines[i]))
}

/// The lines of a quote file, trimmed.
pub open spec fn quote_lines(text: Seq<char>) -> Seq<Seq<char>> {
    trim_all(split_lines(text))
}

pub open spec fn is_russian_header(line: Seq<char>) -> bool {
    starts_with(line, "# Russian Quotes"@)
}

pub open spec fn is_english_header(line: Seq<char>) -> bool {
    starts_with(line, "# English Quotes"@)
}

/// A line that is neither empty nor a comment.
pub open spec fn is_quote(line: Seq<char>) -> bool {
    line.len() > 0 && line[0] != '#'
}

/// Whether the last header among `lines` is the Russian one; without any
/// header the section is English.
pub open spec fn in_russian_section(lines: Seq<Seq<char>>) -> bool
    decreases lines.len(),
{
    if lines.len() == 0 {
        false
    } else if is_russian_header(lines.last()) {
        true
    } else if is_english_header(lines.last()) {
        false
    } else {
        in_russian_section(lines.drop_last())
    }
}

/// The quotes of one section, in order: the lines that are quotes and whose
/// most recent header is that section's.
pub open spec fn section_quotes(lines: Seq<Seq<char>>, russian: bool) -> Seq<Seq<char>>
    decreases lines.len(),
{
    if lines.len() == 0 {
        Seq::empty()
    } else {
        let front = lines.drop_last();
        let rest = section_quotes(front, russian);
        if is_quote(lines.last()) && in_russian_section(front) == russian {
            rest.push(lines.last())
        } else {
            rest
        }
    }
}

/// The texts of a list of strings.
pub open spec fn texts(v: Seq<&str>) -> Seq<Seq<char>> {
    Seq::new(v.len(), |i: int| v[i]@)
}

/// The state of the parser after the lines `lines`.
spec fn parsed(lines: Seq<Seq<char>>, ru: Seq<&str>, en: Seq<&str>, russian: bool) -> bool {
    &&& texts(ru) == section_quotes(lines, true)
    &&& texts(en) == section_quotes(lines, false)
    &&& russian == in_russian_section(lines)
}

/// A header line is a comment line.
proof fn lemma_headers_are_comments(line: Seq<char>)
    ensures
        is_russian_header(line) ==> !is_quote(line) && !is_english_header(line),
        is_english_header(line) ==> !is_quote(line) && !is_russian_header(line),
{
    reveal_strlit("# Russian Quotes");
    reveal_strlit("# English Quotes");
    if is_russian_header(line) {
        assert(line.take("# Russian Quotes"@.len() as int)[0] == '#');
        assert(line.take("# Russian Quotes"@.len() as int)[2] == 'R');
    }
    if is_english_header(line) {
        assert(line.take("# English Quotes"@.len() as int)[0] == '#');
        assert(line.take("# English Quotes"@.len() as int)[2] == 'E');
    }
}

/// File one line, the characters `[lo, hi)` of `text`, under its section.
fn take_line<'a>(
    text: &'a str,
    s: &Vec<char>,
    lo: usize,
    hi: usize,
    russian: bool,
    ru: &mut Vec<&'a str>,
    en: &mut Vec<&'a str>,
    Ghost(lines): Ghost<Seq<Seq<char>>>,
) -> (r: bool)
    requires
        s@ == text@,
        lo <= hi <= s.len(),
        parsed(lines, old(ru)@, old(en)@, russian),
    ensures
        parsed(
            lines.push(trim(s@.subrange(lo as int, hi as int))),
            final(ru)@,
            final(en)@,
            r,
        ),
{
    let (a, b) = trim_bounds(s, lo, hi);
    let ghost line = trim(s@.subrange(lo as int, hi as int));
    let ghost all = lines.push(line);
    proof {
        assert(all.drop_last() =~= lines);
        lemma_headers_are_comments(line);
    }
    if starts_with_at(s, a, b, "# Russian Quotes") {
        return true;
    }
    if starts_with_at(s, a, b, "# English Quotes") {
        return false;
    }
    if a < b && s[a] != '#' {
        assert(is_quote(line));
        let q = text.substring_char(a, b);
        assert(q@ == line);
        if russian {
            ru.push(q);
            assert(texts(ru@) =~= texts(old(ru)@).push(line));
        } else {
            en.push(q);
            assert(texts(en@) =~= texts(old(en)@).push(line));
        }
    }
    russian
}

/// Parse a quote file into its Russian and English quotes.
///
/// Every non-empty, non-comment line belongs to the most recently seen section
/// header; before any header the section is English.
pub fn parse_quotes<'a>(text: &'a str) -> (r: (Vec<&'a str>, Vec<&'a str>))
    ensures
        texts(r.0@) == section_quotes(quote_lines(text@), true),
        texts(r.1@) == section_quotes(quote_lines(text@), false),
{
    let s = chars_of(text);
    let mut ru: Vec<&'a str> = Vec::new();
    let mut en: Vec<&'a str> = Vec::new();
    let mut russian = false;
    let mut start: usize = 0;
    let mut i: usize = 0;
    let ghost mut done: Seq<Seq<char>> = Seq::empty();
    proof {
        assert(s@.take(0) =~= Seq::empty());
        assert(split_lines(s@.take(0)).drop_last() =~= Seq::empty());
        assert(s@.subrange(0, 0) =~= Seq::empty());
        assert(trim_all(done) =~= Seq::empty());
        assert(texts(ru@) =~= Seq::empty());
        assert(texts(en@) =~= Seq::empty());
    }
    while i < s.len()
        invariant
            s@ == text@,
            start <= i <= s.len(),
            split_lines(s@.take(i as int)) == done.push(s@.subrange(start as int, i as int)),
            parsed(trim_all(done), ru@, en@, russian),
        decreases s.len() - i,
    {
        let ghost piece = s@.subrange(start as int, i as int);
        proof {
            let t = s@.take(i + 1);
            assert(t.drop_last() =~= s@.take(i as int));
            assert(t.last() == s@[i as int]);
            assert(done.push(piece).drop_last() =~= done);
        }
        if s[i] == '\n' {
            russian = take_line(
                text,
                &s,
                start,
                i,
                russian,
                &mut ru,
                &mut en,
                Ghost(trim_all(done)),
            );
            proof {
                done = done.push(piece);
                assert(trim_all(done) =~= trim_all(done.drop_last()).push(trim(piece)));
                assert(done.drop_last().push(piece) =~= done);
                assert(s@.subrange(i + 1, i + 1) =~= Seq::empty());
            }
            start = i + 1;
        } else {
            proof {
                assert(s@.subrange(start as int, i + 1) =~= piece.push(s@[i as int]));
            }
        }
        i += 1;
    }
    let n = s.len();
    let ghost piece = s@.subrange(start as int, n as int);
    let _ = take_line(text, &s, start, n, russian, &mut ru, &mut en, Ghost(trim_all(done)));
    proof {
        assert(s@.take(n as int) =~= s@);
        assert(trim_all(done.push(piece)) =~= trim_all(done).push(trim(piece)));
    }
    (ru, en)
}

/// Parse the embedded quote file into `(ru_quotes, en_quotes)`.
pub fn load_quotes() -> (r: (Vec<&'static str>, Vec<&'static str>))
    ensures
        texts(r.0@) == section_quotes(quote_lines(ALL_QUOTES@), true),
        texts(r.1@) == section_quotes(quote_lines(ALL_QUOTES@), false),
{
    parse_quotes(ALL_QUOTES)
}

/// The locale that stands in for an unknown one.
pub const FALLBACK_LOCALE: &'static str = "en-US";

/// Whether a locale selects the Russian quotes.
pub open spec fn is_russian_locale(locale: Option<Seq<char>>) -> bool {
    starts_with(
        match locale {
            Some(l) => l,
            None => FALLBACK_LOCALE@,
        },
        "ru"@,
    )
}

/// The quote pool for a locale; an unknown locale counts as `en-US`.
pub fn select_quotes<'a>(locale: Option<String>, ru: Vec<&'a str>, en: Vec<&'a str>) -> (r: Vec<
    &'a str,
>)
    ensures
        r == if is_russian_locale(
            match locale {
                Some(l) => Some(l@),
                None => None,
            },
        ) {
            ru
        } else {
            en
        },
{
    let name = match &locale {
        Some(l) => chars_of(l.as_str()),
        None => chars_of(FALLBACK_LOCALE),
    };
    let n = name.len();
    assert(name@.subrange(0, n as int) =~= name@);
    if starts_with_at(&name, 0, n, "ru") {
        ru
    } else {
        en
    }
}

/// The host's locale, from `sys_locale::get_locale`. What it returns depends
/// on the environment, so nothing is claimed of the result.
#[verifier::external_body]
fn system_locale() -> (r: Option<String>) {
    sys_locale::get_locale()
}

/// Whether the host's answer can be this locale.
pub closed spec fn is_system_locale(locale: Option<String>) -> bool {
    call_ensures(system_locale, (), locale)
}

/// The answer of a function that asks.
fn answer<F: Fn() -> Option<String>>(ask: F) -> (r: Option<String>)
    requires
        call_requires(ask, ()),
    ensures
        call_ensures(ask, (), r),
{
    ask()
}

/// The embedded quotes in the host's language: those for the locale that the
/// host names.
pub fn system_quotes() -> (r: Vec<&'static str>)
    ensures
        exists|locale: Option<String>| #[trigger]
            is_system_locale(locale) && texts(r@) == section_quotes(
                quote_lines(ALL_QUOTES@),
                is_russian_locale(
                    match locale {
                        Some(l) => Some(l@),
                        None => None,
                    },
                ),
            ),
        texts(r@) == section_quotes(quote_lines(ALL_QUOTES@), true) || texts(r@) == section_quotes(
            quote_lines(ALL_QUOTES@),
            false,
        ),
{
    let (ru, en) = load_quotes();
    let locale = answer(system_locale);
    assert(is_system_locale(locale));
    select_quotes(locale, ru, en)
}

/// Each quote of a section is one of the file's lines, is not empty and does
/// not start with `#`.
pub proof fn lemma_quotes_are_content_lines(lines: Seq<Seq<char>>, russian: bool)
    ensures
        forall|i: int|
            #![trigger section_quotes(lines, russian)[i]]
            0 <= i < section_quotes(lines, russian).len() ==> is_quote(
                section_quotes(lines, russian)[i],
            ) && lines.contains(section_quotes(lines, russian)[i]),
    decreases lines.len(),
{
    if lines.len() > 0 {
        let front = lines.drop_last();
        lemma_quotes_are_content_lines(front, russian);
        let q = section_quotes(lines, russian);
        let f = section_quotes(front, russian);
        assert forall|i: int| 0 <= i < q.len() implies is_quote(#[trigger] q[i]) && lines.contains(
            q[i],
        ) by {
            if i < f.len() {
                assert(q[i] == f[i]);
                let j = choose|j: int| 0 <= j < front.len() && front[j] == f[i];
                assert(lines[j] == f[i]);
            } else {
                assert(lines[lines.len() - 1] == q[i]);
            }
        }
    }
}

/// The number of quotes among `lines`.
pub open spec fn count_quotes(lines: Seq<Seq<char>>) -> nat
    decreases lines.len(),
{
    if lines.len() == 0 {
        0
    } else {
        count_quotes(lines.drop_last()) + if is_quote(lines.last()) {
            1nat
        } else {
            0nat
        }
    }
}

/// Every quote line goes to exactly one of the two sections.
pub proof fn lemma_sections_partition_quotes(lines: Seq<Seq<char>>)
    ensures
        section_quotes(lines, true).len() + section_quotes(lines, false).len() == count_quotes(
            lines,
        ),
    decreases lines.len(),
{
    if lines.len() > 0 {
        lemma_sections_partition_quotes(lines.drop_last());
    }
}

/// A quote file without any header is an English one.
pub proof fn lemma_default_section_is_english(lines: Seq<Seq<char>>)
    requires
        forall|i: int| 0 <= i < lines.len() ==> !is_russian_header(#[trigger] lines[i]),
    ensures
        section_quotes(lines, true).len() == 0,
        !in_russian_section(lines),
    decreases lines.len(),
{
    if lines.len() > 0 {
        assert(!is_russian_header(lines[lines.len() - 1]));
        assert forall|i: int| 0 <= i < lines.drop_last().len() implies !is_russian_header(
            #[trigger] lines.drop_last()[i],
        ) by {
            assert(lines[i] == lines.drop_last()[i]);
        }
        lemma_default_section_is_english(lines.drop_last());
    }
}

// ── Laws of the quote file ──────────────────────────────────────────────

proof fn lemma_split_appended(s: Seq<char>, tail: Seq<char>)
    requires
        forall|i: int| 0 <= i < tail.len() ==> (#[trigger] tail[i]) != '\n',
    ensures
        split_lines(s).len() > 0,
        split_lines(s + tail) == split_lines(s).drop_last().push(split_lines(s).last() + tail),
    decreases tail.len(), s.len(),
{
    let f = split_lines(s);
    if tail.len() == 0 {
        if s.len() > 0 {
            lemma_split_appended(s.drop_last(), tail);
        }
        assert(s + tail =~= s);
        assert(f.last() + tail =~= f.last());
        assert(f.drop_last().push(f.last()) =~= f);
    } else {
        let front = tail.drop_last();
        assert forall|i: int| 0 <= i < front.len() implies (#[trigger] front[i]) != '\n' by {
            assert(front[i] == tail[i]);
        }
        lemma_split_appended(s, front);
        assert((s + tail).drop_last() =~= s + front);
        assert((s + tail).last() == tail[tail.len() - 1]);
        let g = split_lines(s + front);
        assert(g.drop_last() =~= f.drop_last());
        assert((f.last() + front).push(tail.last()) =~= f.last() + tail);
    }
}

/// How a text is cut into lines: one without a newline is a single line, and a
/// newline with such a text behind it adds that text as one more line.
pub proof fn lemma_newlines_separate_lines(s: Seq<char>, line: Seq<char>)
    requires
        forall|i: int| 0 <= i < line.len() ==> (#[trigger] line[i]) != '\n',
    ensures
        split_lines(line) == seq![line],
        split_lines(s.push('\n') + line) == split_lines(s).push(line),
{
    lemma_split_appended(Seq::empty(), line);
    assert(Seq::<char>::empty() + line =~= line);
    assert(split_lines(line) =~= seq![line]);
    let t = s.push('\n');
    assert(t.drop_last() =~= s);
    lemma_split_appended(t, line);
    assert(split_lines(t) == split_lines(s).push(Seq::empty()));
    assert(split_lines(t).drop_last() =~= split_lines(s));
    assert(Seq::<char>::empty() + line =~= line);
}

/// The lines that are filed are those of the text, each without the white space
/// around it.
pub proof fn lemma_lines_are_trimmed(text: Seq<char>, i: int)
    requires
        0 <= i < split_lines(text).len(),
    ensures
        quote_lines(text).len() == split_lines(text).len(),
        quote_lines(text)[i] == trim(split_lines(text)[i]),
{
}

/// Where a line goes: the latest header, `# Russian Quotes` or
/// `# English Quotes`, decides the section; a line that is not empty and does
/// not start with `#` is added at the end of that section and of no other; any
/// other line is added nowhere.
pub proof fn lemma_latest_header_decides(
    lines: Seq<Seq<char>>,
    h: int,
    russian: bool,
    line: Seq<char>,
)
    requires
        0 <= h < lines.len(),
        russian ==> starts_with(lines[h], "# Russian Quotes"@),
        !russian ==> starts_with(lines[h], "# English Quotes"@),
        forall|j: int|
            h < j < lines.len() ==> !starts_with(#[trigger] lines[j], "# Russian Quotes"@)
                && !starts_with(lines[j], "# English Quotes"@),
    ensures
        in_russian_section(lines) == russian,
        line.len() > 0 && line[0] != '#' ==> {
            &&& section_quotes(lines.push(line), russian) == section_quotes(lines, russian).push(
                line,
            )
            &&& section_quotes(lines.push(line), !russian) == section_quotes(lines, !russian)
        },
        line.len() == 0 || line[0] == '#' ==> {
            &&& section_quotes(lines.push(line), russian) == section_quotes(lines, russian)
            &&& section_quotes(lines.push(line), !russian) == section_quotes(lines, !russian)
        },
{
    lemma_section_since(lines, h, russian);
    assert(lines.push(line).drop_last() =~= lines);
    assert(lines.push(line).last() == line);
}

proof fn lemma_section_since(lines: Seq<Seq<char>>, h: int, russian: bool)
    requires
        0 <= h < lines.len(),
        russian ==> is_russian_header(lines[h]),
        !russian ==> is_english_header(lines[h]),
        forall|j: int|
            h < j < lines.len() ==> !is_russian_header(#[trigger] lines[j]) && !is_english_header(
                lines[j],
            ),
    ensures
        in_russian_section(lines) == russian,
    decreases lines.len(),
{
    let n = lines.len() - 1;
    assert(lines[n] == lines.last());
    if h < n {
        let front = lines.drop_last();
        assert forall|j: int| h < j < front.len() implies !is_russian_header(
            #[trigger] front[j],
        ) && !is_english_header(front[j]) by {
            assert(front[j] == lines[j]);
        }
        assert(!is_russian_header(lines[n]) && !is_english_header(lines[n]));
        lemma_section_since(front, h, russian);
    } else {
        lemma_headers_are_comments(lines[h]);
    }
}

/// Before any header a quote is an English one, and no lines hold no quotes.
pub proof fn lemma_quotes_before_any_header(lines: Seq<Seq<char>>, line: Seq<char>)
    requires
        forall|j: int|
            0 <= j < lines.len() ==> !starts_with(#[trigger] lines[j], "# Russian Quotes"@),
        line.len() > 0,
        line[0] != '#',
    ensures
        section_quotes(lines.push(line), false) == section_quotes(lines, false).push(line),
        section_quotes(lines.push(line), true).len() == 0,
        section_quotes(Seq::empty(), true).len() == 0,
        section_quotes(Seq::empty(), false).len() == 0,
{
    lemma_default_section_is_english(lines);
    assert(lines.push(line).drop_last() =~= lines);
    assert(lines.push(line).last() == line);
}

/// The Russian quotes are for locales whose name starts with `ru`, and for no
/// others; an unknown locale is none of them.
pub proof fn lemma_russian_locales(name: Seq<char>)
    ensures
        is_russian_locale(Some(name)) <==> name.len() >= 2 && name[0] == 'r' && name[1] == 'u',
        !is_russian_locale(None),
{
    reveal_strlit("ru");
    reveal_strlit("en-US");
    if name.len() >= 2 {
        assert(name.take(2)[0] == name[0] && name.take(2)[1] == name[1]);
        if name[0] == 'r' && name[1] == 'u' {
            assert(name.take(2) =~= "ru"@);
        }
    }
    assert("en-US"@.take(2)[0] == 'e');
}

/// A list of texts holds the text of each entry.
pub proof fn lemma_texts_of_entries(v: Seq<&str>, i: int)
    requires
        0 <= i < v.len(),
    ensures
        texts(v).len() == v.len(),
        texts(v)[i] == v[i]@,
{
}

} // verus!
