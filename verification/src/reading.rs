//! Reading a model back from its text: lines, the values under their names, and lists.

use vstd::prelude::*;

use crate::text::{decimal, digit, joined, signed_decimal, spaced};

verus! {

/// The lines of a text, each of which ends with a line break.
pub open spec fn lines(text: Seq<char>) -> Seq<Seq<char>>
    decreases text.len(),
{
    if text.len() == 0 {
        Seq::empty()
    } else if text[0] == '\n' {
        seq![Seq::<char>::empty()] + lines(text.skip(1))
    } else {
        let rest = lines(text.skip(1));
        if rest.len() == 0 {
            seq![seq![text[0]]]
        } else {
            rest.update(0, seq![text[0]] + rest[0])
        }
    }
}

/// The text of lines.
pub open spec fn unlines(all: Seq<Seq<char>>) -> Seq<char>
    decreases all.len(),
{
    if all.len() == 0 {
        Seq::empty()
    } else {
        all[0] + seq!['\n'] + unlines(all.skip(1))
    }
}

/// A text without line breaks.
pub open spec fn one_line(text: Seq<char>) -> bool {
    forall|i: int| 0 <= i < text.len() ==> #[trigger] text[i] != '\n'
}

proof fn lemma_first_line(line: Seq<char>, rest: Seq<char>)
    requires
        one_line(line),
    ensures
        lines(line + seq!['\n'] + rest) == seq![line] + lines(rest),
    decreases line.len(),
{
    let text = line + seq!['\n'] + rest;
    if line.len() == 0 {
        assert(text.skip(1) =~= rest);
        assert(line =~= Seq::<char>::empty());
    } else {
        let shorter = line.skip(1);
        assert forall|i: int| 0 <= i < shorter.len() implies #[trigger] shorter[i] != '\n' by {
            assert(shorter[i] == line[i + 1]);
        }
        lemma_first_line(shorter, rest);
        assert(text.skip(1) =~= shorter + seq!['\n'] + rest);
        assert(text[0] == line[0]);
        let all = seq![shorter] + lines(rest);
        assert(seq![text[0]] + all[0] =~= line);
        assert(all.update(0, seq![text[0]] + all[0]) =~= seq![line] + lines(rest));
    }
}

/// The lines of the text of lines are those lines.
pub proof fn law_lines_are_read_back(all: Seq<Seq<char>>)
    requires
        forall|i: int| 0 <= i < all.len() ==> one_line(#[trigger] all[i]),
    ensures
        lines(unlines(all)) == all,
    decreases all.len(),
{
    if all.len() > 0 {
        let rest = all.skip(1);
        assert forall|i: int| 0 <= i < rest.len() implies one_line(#[trigger] rest[i]) by {
            assert(rest[i] == all[i + 1]);
        }
        law_lines_are_read_back(rest);
        assert(one_line(all[0]));
        lemma_first_line(all[0], unlines(rest));
        assert(seq![all[0]] + rest =~= all);
    } else {
        assert(lines(unlines(all)) =~= all);
    }
}

pub(crate) proof fn lemma_unlines_concat(a: Seq<Seq<char>>, b: Seq<Seq<char>>)
    ensures
        unlines(a + b) == unlines(a) + unlines(b),
    decreases a.len(),
{
    if a.len() == 0 {
        assert(a + b =~= b);
        assert(unlines(a) + unlines(b) =~= unlines(b));
    } else {
        lemma_unlines_concat(a.skip(1), b);
        assert((a + b).skip(1) =~= a.skip(1) + b);
        assert((a + b)[0] == a[0]);
        assert(unlines(a + b) =~= unlines(a) + unlines(b));
    }
}

/// A line starts with a name.
pub open spec fn starts(line: Seq<char>, name: Seq<char>) -> bool {
    name.len() <= line.len() && line.take(name.len() as int) == name
}

/// What follows the name on the first line, at or after line `from`, that starts with it.
pub open spec fn value_of_name(all: Seq<Seq<char>>, from: int, name: Seq<char>) -> Option<Seq<char>>
    decreases all.len() - from,
{
    if from >= all.len() {
        None
    } else if starts(all[from], name) {
        Some(all[from].skip(name.len() as int))
    } else {
        value_of_name(all, from + 1, name)
    }
}

/// The first line, at or after line `from`, that is the title.
pub open spec fn line_of_title(all: Seq<Seq<char>>, from: int, title: Seq<char>) -> Option<int>
    decreases all.len() - from,
{
    if from >= all.len() {
        None
    } else if all[from] == title {
        Some(from)
    } else {
        line_of_title(all, from + 1, title)
    }
}

/// Names of which neither starts with the other.
pub open spec fn apart(a: Seq<char>, b: Seq<char>) -> bool {
    exists|i: int| 0 <= i < a.len() && i < b.len() && #[trigger] a[i] != b[i]
}

/// A line that starts with one name does not start with another.
pub(crate) proof fn lemma_apart(a: Seq<char>, rest: Seq<char>, b: Seq<char>)
    requires
        apart(a, b),
    ensures
        !starts(a + rest, b),
{
    let i = choose|i: int| 0 <= i < a.len() && i < b.len() && #[trigger] a[i] != b[i];
    if starts(a + rest, b) {
        assert((a + rest).take(b.len() as int)[i] == b[i]);
    }
}

pub(crate) proof fn lemma_starts(a: Seq<char>, rest: Seq<char>)
    ensures
        starts(a + rest, a),
        (a + rest).skip(a.len() as int) == rest,
{
    assert((a + rest).take(a.len() as int) =~= a);
    assert((a + rest).skip(a.len() as int) =~= rest);
}

/// The value of a name that the lines before do not start with.
pub(crate) proof fn lemma_value_at(all: Seq<Seq<char>>, from: int, at: int, name: Seq<char>, value: Seq<char>)
    requires
        0 <= from <= at < all.len(),
        all[at] == name + value,
        forall|i: int| from <= i < at ==> !starts(#[trigger] all[i], name),
    ensures
        value_of_name(all, from, name) == Some(value),
    decreases at - from,
{
    if from == at {
        lemma_starts(name, value);
    } else {
        assert(!starts(all[from], name));
        lemma_value_at(all, from + 1, at, name, value);
    }
}

pub(crate) proof fn lemma_title_at(all: Seq<Seq<char>>, from: int, at: int, title: Seq<char>)
    requires
        0 <= from <= at < all.len(),
        all[at] == title,
        forall|i: int| from <= i < at ==> #[trigger] all[i] != title,
    ensures
        line_of_title(all, from, title) == Some(at),
    decreases at - from,
{
    if from < at {
        assert(all[from] != title);
        lemma_title_at(all, from + 1, at, title);
    }
}

// ---------------------------------------------------------------------------------------
// Numbers and lists
// ---------------------------------------------------------------------------------------

/// The value of a digit.
pub open spec fn digit_value(c: char) -> int {
    c as int - '0' as int
}

/// The number that digits stand for.
pub open spec fn read_decimal(text: Seq<char>) -> int
    decreases text.len(),
{
    if text.len() == 0 {
        0
    } else {
        10 * read_decimal(text.drop_last()) + digit_value(text.last())
    }
}

/// The number that digits stand for, with a sign in front if it is negative.
pub open spec fn read_number(text: Seq<char>) -> int {
    if text.len() > 0 && text[0] == '-' {
        -read_decimal(text.skip(1))
    } else {
        read_decimal(text)
    }
}

/// Digits only, and at least one.
pub open spec fn digits(text: Seq<char>) -> bool {
    &&& text.len() > 0
    &&& forall|i: int| 0 <= i < text.len() ==> '0' as int <= (#[trigger] text[i]) as int <= '9' as int
}

proof fn lemma_digit(n: nat)
    requires
        n < 10,
    ensures
        digit(n).len() == 1,
        digit_value(digit(n)[0]) == n,
        digits(digit(n)),
{
    reveal_strlit("0");
    reveal_strlit("1");
    reveal_strlit("2");
    reveal_strlit("3");
    reveal_strlit("4");
    reveal_strlit("5");
    reveal_strlit("6");
    reveal_strlit("7");
    reveal_strlit("8");
    reveal_strlit("9");
}

/// The digits of a number stand for it.
pub proof fn law_decimal_is_read_back(n: nat)
    ensures
        read_decimal(decimal(n)) == n,
        digits(decimal(n)),
    decreases n,
{
    if n < 10 {
        lemma_digit(n);
        let d = digit(n);
        assert(d.drop_last() =~= Seq::<char>::empty());
        assert(read_decimal(d.drop_last()) == 0);
        assert(d.last() == d[0]);
    } else {
        law_decimal_is_read_back(n / 10);
        lemma_digit(n % 10);
        let d = decimal(n);
        assert(d.drop_last() =~= decimal(n / 10));
        assert(d.last() == digit(n % 10)[0]);
    }
}

/// A number that is written with its sign is read back.
pub proof fn law_signed_number_is_read_back(n: int)
    ensures
        read_number(signed_decimal(n)) == n,
        word(signed_decimal(n)),
        !signed_decimal(n).contains(':'),
{
    if n < 0 {
        law_decimal_is_read_back((-n) as nat);
        reveal_strlit("-");
        let d = decimal((-n) as nat);
        assert(signed_decimal(n).skip(1) =~= d);
        assert forall|i: int| 0 <= i < signed_decimal(n).len() implies #[trigger] signed_decimal(n)[i] != ' '
            && signed_decimal(n)[i] != '\n' by {
            if i > 0 {
                assert(signed_decimal(n)[i] == d[i - 1]);
            }
        }
    } else {
        law_decimal_is_read_back(n as nat);
    }
}

pub proof fn law_number_is_read_back(n: nat)
    ensures
        read_number(decimal(n)) == n,
        word(decimal(n)),
{
    law_decimal_is_read_back(n);
}

/// A word: not empty, and without spaces or line breaks.
pub open spec fn word(text: Seq<char>) -> bool {
    &&& text.len() > 0
    &&& forall|i: int| 0 <= i < text.len() ==> #[trigger] text[i] != ' ' && text[i] != '\n'
}

/// The words of a text, which stand between separators.
pub open spec fn words(text: Seq<char>, separator: char) -> Seq<Seq<char>>
    decreases text.len(),
{
    if text.len() == 0 {
        Seq::empty()
    } else if text.last() == separator {
        words(text.drop_last(), separator).push(Seq::empty())
    } else {
        let before = words(text.drop_last(), separator);
        if before.len() == 0 {
            seq![seq![text.last()]]
        } else {
            before.update(before.len() - 1, before.last().push(text.last()))
        }
    }
}

proof fn lemma_words_push(text: Seq<char>, w: Seq<char>, separator: char)
    requires
        forall|i: int| 0 <= i < w.len() ==> #[trigger] w[i] != separator,
        text.len() == 0 || text.last() == separator,
        text.len() == 0 ==> w.len() > 0,
    ensures
        text.len() > 0 ==> words(text + w, separator) == words(text, separator).drop_last().push(w) && words(text, separator).len() > 0,
        text.len() == 0 ==> words(text + w, separator) == seq![w],
    decreases w.len(),
{
    if w.len() == 0 {
        assert(text + w =~= text);
        assert(words(text, separator).last() == Seq::<char>::empty());
        assert(w =~= Seq::<char>::empty());
        assert(words(text, separator).drop_last().push(w) =~= words(text, separator));
    } else {
        let shorter = w.drop_last();
        let all = text + w;
        assert(all.drop_last() =~= text + shorter);
        assert(all.last() == w.last());
        assert(w[w.len() - 1] != separator);
        assert forall|i: int| 0 <= i < shorter.len() implies #[trigger] shorter[i] != separator by {
            assert(shorter[i] == w[i]);
        }
        if text.len() == 0 && shorter.len() == 0 {
            assert(text + shorter =~= Seq::<char>::empty());
            assert(seq![w.last()] =~= w);
        } else {
            lemma_words_push(text, shorter, separator);
            let before = words(text + shorter, separator);
            assert(before.last() == shorter);
            assert(shorter.push(w.last()) =~= w);
            if text.len() > 0 {
                assert(before.update(before.len() - 1, w) =~= words(text, separator).drop_last().push(w));
            } else {
                assert(before.update(before.len() - 1, w) =~= seq![w]);
            }
        }
    }
}

proof fn lemma_words_joined(parts: Seq<Seq<char>>, between: Seq<char>, separator: char, n: nat)
    requires
        n <= parts.len(),
        between == seq![separator],
        separator != '\n',
        forall|i: int| 0 <= i < parts.len() ==> word(#[trigger] parts[i]) && !parts[i].contains(separator),
    ensures
        words(joined(parts, between, n), separator) == parts.take(n as int),
        one_line(joined(parts, between, n)),
        n > 0 ==> joined(parts, between, n).len() > 0,
    decreases n,
{
    if n == 0 {
        assert(parts.take(0) =~= Seq::<Seq<char>>::empty());
    } else if n == 1 {
        assert(word(parts[0]));
        let none = Seq::<char>::empty();
        lemma_none_separates(parts[0], separator);
        lemma_words_push(none, parts[0], separator);
        assert(none + parts[0] =~= parts[0]);
        assert(parts.take(1) =~= seq![parts[0]]);
    } else {
        let m = (n - 1) as nat;
        lemma_words_joined(parts, between, separator, m);
        let before = joined(parts, between, m);
        let text = before + between;
        assert(text.last() == separator);
        assert(text.drop_last() =~= before);
        assert(word(parts[n - 1]));
        lemma_none_separates(parts[n - 1], separator);
        lemma_words_push(text, parts[n - 1], separator);
        assert(words(text, separator).drop_last() =~= parts.take(m as int));
        assert(parts.take(m as int).push(parts[n - 1]) =~= parts.take(n as int));
        let all = joined(parts, between, n);
        assert forall|i: int| 0 <= i < all.len() implies #[trigger] all[i] != '\n' by {
            if i < before.len() {
                assert(all[i] == before[i]);
            } else if i > before.len() {
                assert(all[i] == parts[n - 1][i - before.len() - 1]);
            }
        }
    }
}

proof fn lemma_none_separates(w: Seq<char>, separator: char)
    requires
        !w.contains(separator),
    ensures
        forall|i: int| 0 <= i < w.len() ==> #[trigger] w[i] != separator,
{
    assert forall|i: int| 0 <= i < w.len() implies #[trigger] w[i] != separator by {
        if w[i] == separator {
            assert(w.contains(separator));
        }
    }
}

/// Words with colons between them are read back.
pub proof fn law_colons_are_read_back(parts: Seq<Seq<char>>)
    requires
        forall|i: int| 0 <= i < parts.len() ==> word(#[trigger] parts[i]) && !parts[i].contains(':'),
    ensures
        words(joined(parts, ":"@, parts.len()), ':') == parts,
        one_line(joined(parts, ":"@, parts.len())),
        parts.len() > 0 ==> word(joined(parts, ":"@, parts.len())),
{
    reveal_strlit(":");
    assert(":"@ =~= seq![':']);
    lemma_words_joined(parts, ":"@, ':', parts.len());
    assert(parts.take(parts.len() as int) =~= parts);
    lemma_colons_no_spaces(parts, parts.len());
}

proof fn lemma_colons_no_spaces(parts: Seq<Seq<char>>, n: nat)
    requires
        n <= parts.len(),
        forall|i: int| 0 <= i < parts.len() ==> word(#[trigger] parts[i]),
    ensures
        forall|i: int| 0 <= i < joined(parts, ":"@, n).len() ==> #[trigger] joined(parts, ":"@, n)[i] != ' ',
    decreases n,
{
    reveal_strlit(":");
    if n == 1 {
        assert(word(parts[0]));
    } else if n > 1 {
        lemma_colons_no_spaces(parts, (n - 1) as nat);
        let before = joined(parts, ":"@, (n - 1) as nat);
        let all = joined(parts, ":"@, n);
        assert(word(parts[n - 1]));
        assert forall|i: int| 0 <= i < all.len() implies #[trigger] all[i] != ' ' by {
            if i < before.len() {
                assert(all[i] == before[i]);
            } else if i > before.len() {
                assert(all[i] == parts[n - 1][i - before.len() - 1]);
            }
        }
    }
}

/// The words of a list are read back.
pub proof fn law_lists_are_read_back(parts: Seq<Seq<char>>)
    requires
        forall|i: int| 0 <= i < parts.len() ==> word(#[trigger] parts[i]),
    ensures
        words(spaced(parts), ' ') == parts,
        one_line(spaced(parts)),
{
    reveal_strlit(" ");
    assert(" "@ =~= seq![' ']);
    assert forall|i: int| 0 <= i < parts.len() implies word(#[trigger] parts[i]) && !parts[i].contains(' ') by {
        if parts[i].contains(' ') {
            let j = choose|j: int| 0 <= j < parts[i].len() && parts[i][j] == ' ';
            assert(word(parts[i]));
        }
    }
    lemma_words_joined(parts, " "@, ' ', parts.len());
    assert(parts.take(parts.len() as int) =~= parts);
}

} // verus!
