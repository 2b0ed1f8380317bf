//! What holds of lines, words, numbers and paths, and of the command line.

use vstd::prelude::*;
use crate::config::{LogLevel, Wishes};
use crate::state::Record;

verus! {

// ---------------------------------------------------------------------------
// Lines
// ---------------------------------------------------------------------------

/// Lines put together again.
pub open spec fn joined_lines(lines: Seq<Seq<char>>) -> Seq<char>
    decreases lines.len(),
{
    if lines.len() == 0 {
        seq![]
    } else if lines.len() == 1 {
        lines[0]
    } else {
        lines[0] + seq!['\n'] + joined_lines(lines.drop_first())
    }
}

proof fn lemma_up_to(s: Seq<char>, stop: char)
    ensures
        crate::text::length_to(s, stop) <= s.len(),
        crate::text::length_to(s, stop) < s.len() ==> s[crate::text::length_to(s, stop) as int] == stop,
        forall|i: int| 0 <= i < crate::text::length_to(s, stop) ==> #[trigger] s[i] != stop,
    decreases s.len(),
{
    if s.len() > 0 && s[0] != stop {
        let t = s.drop_first();
        lemma_up_to(t, stop);
        assert forall|i: int| 0 <= i < crate::text::length_to(s, stop) implies #[trigger] s[i] != stop by {
            if i > 0 {
                assert(t[i - 1] == s[i]);
            }
        }
    }
}

/// The lines of a text, with line feeds between them, are the text, and none of them holds a line feed.
pub proof fn law_lines_make_up_the_text(s: Seq<char>)
    ensures
        crate::text::lines(s).len() > 0,
        joined_lines(crate::text::lines(s)) == s,
        forall|i: int, k: int|
            0 <= i < crate::text::lines(s).len() && 0 <= k < crate::text::lines(s)[i].len() ==> #[trigger] crate::text::lines(
                s,
            )[i][k] != '\n',
    decreases s.len(),
{
    let n = crate::text::length_to(s, '\n') as int;
    let all = crate::text::lines(s);
    lemma_up_to(s, '\n');
    if n >= s.len() {
        assert(all =~= seq![s]);
    } else {
        let rest = s.skip(n + 1);
        law_lines_make_up_the_text(rest);
        let more = crate::text::lines(rest);
        assert(all.drop_first() =~= more);
        assert(all[0] == s.take(n));
        assert(s =~= s.take(n) + seq!['\n'] + rest);
        assert forall|i: int, k: int| 0 <= i < all.len() && 0 <= k < all[i].len() implies #[trigger] all[i][k] != '\n' by {
            if i == 0 {
                assert(all[0][k] == s[k]);
            } else {
                assert(all[i] == more[i - 1]);
                assert(more[i - 1][k] != '\n');
            }
        }
    }
}

// ---------------------------------------------------------------------------
// Words
// ---------------------------------------------------------------------------

proof fn lemma_word_ends(a: Seq<char>, w: char, b: Seq<char>)
    requires
        crate::text::white(w),
    ensures
        crate::text::word_length(a + seq![w] + b) == crate::text::word_length(a),
        crate::text::word_length(a) <= a.len(),
        a.len() > 0 && !crate::text::white(a[0]) ==> crate::text::word_length(a) > 0,
    decreases a.len(),
{
    let s = a + seq![w] + b;
    if a.len() == 0 {
        assert(s[0] == w);
    } else {
        assert(s[0] == a[0]);
        if !crate::text::white(a[0]) {
            assert(s.drop_first() =~= a.drop_first() + seq![w] + b);
            lemma_word_ends(a.drop_first(), w, b);
        }
    }
}

/// White space parts words: those of two texts with white space between them are those of the first, and then those
/// of the second.
pub proof fn law_white_space_parts_words(a: Seq<char>, w: char, b: Seq<char>)
    requires
        crate::text::white(w),
    ensures
        crate::text::words(a + seq![w] + b) == crate::text::words(a) + crate::text::words(b),
    decreases a.len(),
{
    let s = a + seq![w] + b;
    if a.len() == 0 {
        assert(s[0] == w);
        assert(s.drop_first() =~= b);
        assert(crate::text::words(a) + crate::text::words(b) =~= crate::text::words(b));
    } else if crate::text::white(a[0]) {
        assert(s[0] == a[0]);
        assert(s.drop_first() =~= a.drop_first() + seq![w] + b);
        law_white_space_parts_words(a.drop_first(), w, b);
    } else {
        assert(s[0] == a[0]);
        lemma_word_ends(a, w, b);
        let n = crate::text::word_length(a) as int;
        assert(s.take(n) =~= a.take(n));
        assert(s.skip(n) =~= a.skip(n) + seq![w] + b);
        law_white_space_parts_words(a.skip(n), w, b);
        assert(seq![a.take(n)] + (crate::text::words(a.skip(n)) + crate::text::words(b)) =~= (seq![a.take(n)]
            + crate::text::words(a.skip(n))) + crate::text::words(b));
    }
}

/// A text without white space is one word.
pub proof fn law_a_word_is_one_word(a: Seq<char>)
    requires
        crate::state_laws::is_word(a),
    ensures
        crate::text::words(a) == seq![a],
{
    reveal_with_fuel(crate::text::words, 2);
    assert(a + Seq::<char>::empty() =~= a);
    crate::state_laws::lemma_word_length(a, Seq::empty());
    assert(a.take(a.len() as int) =~= a);
    assert(a.skip(a.len() as int) =~= Seq::<char>::empty());
    assert(crate::text::words(a) =~= seq![a]);
}

/// White space alone holds no word.
pub proof fn law_white_space_is_no_word(s: Seq<char>)
    requires
        forall|i: int| 0 <= i < s.len() ==> crate::text::white(#[trigger] s[i]),
    ensures
        crate::text::words(s) == Seq::<Seq<char>>::empty(),
    decreases s.len(),
{
    if s.len() > 0 {
        let t = s.drop_first();
        assert forall|i: int| 0 <= i < t.len() implies crate::text::white(#[trigger] t[i]) by {
            assert(t[i] == s[i + 1]);
        }
        law_white_space_is_no_word(t);
    }
}

/// Trimming takes off the white space round a text, and nothing of the text.
pub proof fn law_trimming_takes_the_white_space_off(before: Seq<char>, s: Seq<char>, after: Seq<char>)
    requires
        forall|i: int| 0 <= i < before.len() ==> crate::text::white(#[trigger] before[i]),
        forall|i: int| 0 <= i < after.len() ==> crate::text::white(#[trigger] after[i]),
        s.len() > 0,
        !crate::text::white(s[0]),
        !crate::text::white(s.last()),
    ensures
        crate::text::trimmed(before + s + after) == s,
    decreases before.len() + after.len(),
{
    let all = before + s + after;
    if before.len() > 0 {
        let t = before.drop_first();
        assert(all[0] == before[0]);
        assert(all.drop_first() =~= t + s + after);
        assert forall|i: int| 0 <= i < t.len() implies crate::text::white(#[trigger] t[i]) by {
            assert(t[i] == before[i + 1]);
        }
        law_trimming_takes_the_white_space_off(t, s, after);
    } else {
        assert(all =~= s + after);
        assert(all[0] == s[0]);
        lemma_trimmed_end(s, after);
    }
}

proof fn lemma_trimmed_end(s: Seq<char>, after: Seq<char>)
    requires
        forall|i: int| 0 <= i < after.len() ==> crate::text::white(#[trigger] after[i]),
        s.len() > 0,
        !crate::text::white(s.last()),
    ensures
        crate::text::trimmed_end(s + after) == s,
    decreases after.len(),
{
    let all = s + after;
    if after.len() > 0 {
        let t = after.drop_last();
        assert(all.last() == after[after.len() - 1]);
        assert(all.drop_last() =~= s + t);
        assert forall|i: int| 0 <= i < t.len() implies crate::text::white(#[trigger] t[i]) by {
            assert(t[i] == after[i]);
        }
        lemma_trimmed_end(s, t);
    } else {
        assert(all =~= s);
    }
}

// ---------------------------------------------------------------------------
// Records
// ---------------------------------------------------------------------------

/// A line of two words or more is a pair, whatever follows the second; one of a single word is a level alone.
pub proof fn law_two_words_are_a_pair(a: Seq<char>, b: Seq<char>, w: char, v: char, rest: Seq<char>)
    requires
        crate::state_laws::is_word(a),
        crate::state_laws::is_word(b),
        a[0] != '#',
        crate::text::white(w),
        crate::text::white(v),
    ensures
        crate::state::record_of(a + seq![w] + (b + seq![v] + rest)) == Some(Record::Pair(a, b)),
        crate::state::record_of(a + seq![w] + b) == Some(Record::Pair(a, b)),
        crate::state::record_of(a) == Some(Record::Single(a)),
{
    law_white_space_parts_words(a, w, b + seq![v] + rest);
    law_white_space_parts_words(a, w, b);
    law_white_space_parts_words(b, v, rest);
    law_a_word_is_one_word(a);
    law_a_word_is_one_word(b);
    let s = a + seq![w] + (b + seq![v] + rest);
    let all = crate::text::words(s);
    assert(all =~= seq![a] + (seq![b] + crate::text::words(rest)));
    assert(all[0] == a && all[1] == b);
    let two = crate::text::words(a + seq![w] + b);
    assert(two[0] == a && two[1] == b && two.len() == 2);
}

/// A comment says nothing, nor does a blank line; white space before a line changes nothing of it.
pub proof fn law_comments_say_nothing(line: Seq<char>, w: char)
    requires
        crate::text::white(w),
    ensures
        line.len() > 0 && line[0] == '#' ==> crate::state::record_of(line) is None,
        (forall|i: int| 0 <= i < line.len() ==> crate::text::white(#[trigger] line[i])) ==> crate::state::record_of(
            line,
        ) is None,
        crate::state::record_of(seq![w] + line) == crate::state::record_of(line),
{
    if line.len() > 0 && line[0] == '#' {
        crate::state_laws::lemma_first_word(line);
    }
    if forall|i: int| 0 <= i < line.len() ==> crate::text::white(#[trigger] line[i]) {
        law_white_space_is_no_word(line);
    }
    let s = seq![w] + line;
    assert(s[0] == w);
    assert(s.drop_first() =~= line);
}

/// The file is read line by line: what two parts of it say is what the first says, and then what the second does.
pub proof fn law_lines_are_read_in_turn(a: Seq<Seq<char>>, b: Seq<Seq<char>>)
    ensures
        crate::state::records_of(a + b) == crate::state::records_of(a) + crate::state::records_of(b),
    decreases a.len(),
{
    if a.len() == 0 {
        assert(a + b =~= b);
        assert(crate::state::records_of(a) + crate::state::records_of(b) =~= crate::state::records_of(b));
    } else {
        let c = a.drop_first();
        law_lines_are_read_in_turn(c, b);
        assert((a + b).drop_first() =~= c + b);
        assert((a + b)[0] == a[0]);
        if let Some(r) = crate::state::record_of(a[0]) {
            assert(seq![r] + (crate::state::records_of(c) + crate::state::records_of(b)) =~= (seq![r]
                + crate::state::records_of(c)) + crate::state::records_of(b));
        }
    }
}

// ---------------------------------------------------------------------------
// Numbers
// ---------------------------------------------------------------------------

/// A digit writes its number, and a digit behind others adds to ten times theirs.
pub proof fn law_digits_count_in_tens(s: Seq<char>, c: char)
    requires
        '0' <= c <= '9',
        s.len() == 0 || crate::text::digits(s),
        crate::text::decimal(s) * 10 + 9 <= i64::MAX,
    ensures
        crate::text::integer(s.push(c)) == Some((crate::text::decimal(s) * 10 + (c as int - '0' as int)) as i64),
        crate::text::decimal(s.push(c)) == crate::text::decimal(s) * 10 + (c as int - '0' as int),
{
    let t = s.push(c);
    assert(t.drop_last() =~= s);
    assert(t.last() == c);
    assert(crate::text::digits(t)) by {
        assert forall|i: int| 0 <= i < t.len() implies crate::text::digit(#[trigger] t[i]) by {
            if i < s.len() {
                assert(t[i] == s[i]);
            }
        }
    }
    assert(crate::text::digit(t[0]));
}

/// A plus before digits changes nothing, a minus the sign; zeros before them change nothing.
pub proof fn law_signs_and_zeros(s: Seq<char>)
    requires
        crate::text::digits(s),
    ensures
        crate::text::integer(seq!['+'] + s) == crate::text::integer(s),
        crate::text::decimal(s) <= i64::MAX ==> crate::text::integer(s) == Some(crate::text::decimal(s) as i64)
            && crate::text::integer(seq!['-'] + s) == Some(-(crate::text::decimal(s) as int) as i64),
        crate::text::decimal(s) > 0x8000_0000_0000_0000 ==> crate::text::integer(s) is None && crate::text::integer(
            seq!['-'] + s,
        ) is None,
        crate::text::integer(seq!['0'] + s) == crate::text::integer(s),
{
    assert(crate::text::digit(s[0]));
    let p = seq!['+'] + s;
    let m = seq!['-'] + s;
    let z = seq!['0'] + s;
    assert(p.drop_first() =~= s);
    assert(m.drop_first() =~= s);
    assert(p[0] == '+' && m[0] == '-' && z[0] == '0');
    lemma_leading_zero(s);
    assert(crate::text::digits(z)) by {
        assert forall|i: int| 0 <= i < z.len() implies crate::text::digit(#[trigger] z[i]) by {
            if i > 0 {
                assert(z[i] == s[i - 1]);
            }
        }
    }
}

proof fn lemma_leading_zero(s: Seq<char>)
    ensures
        crate::text::decimal(seq!['0'] + s) == crate::text::decimal(s),
    decreases s.len(),
{
    let z = seq!['0'] + s;
    if s.len() == 0 {
        reveal_with_fuel(crate::text::decimal, 2);
        assert(z =~= seq!['0']);
        assert(z.drop_last() =~= Seq::<char>::empty());
        assert(z.last() == '0');
    } else {
        assert(z.drop_last() =~= seq!['0'] + s.drop_last());
        assert(z.last() == s.last());
        lemma_leading_zero(s.drop_last());
    }
}

/// What holds something else than digits behind at most one sign, or no digit, is no number.
pub proof fn law_other_characters_are_no_number(s: Seq<char>, i: int)
    ensures
        s.len() == 0 ==> crate::text::integer(s) is None,
        s.len() == 1 && !('0' <= s[0] <= '9') ==> crate::text::integer(s) is None,
        0 < i < s.len() && !('0' <= s[i] <= '9') ==> crate::text::integer(s) is None,
        s.len() > 0 && !('0' <= s[0] <= '9') && s[0] != '+' && s[0] != '-' ==> crate::text::integer(s) is None,
{
    if 0 < i < s.len() && !('0' <= s[i] <= '9') {
        let signed = s[0] == '+' || s[0] == '-';
        if signed {
            assert(s.drop_first()[i - 1] == s[i]);
            assert(!crate::text::digit(s.drop_first()[i - 1]));
        } else {
            assert(!crate::text::digit(s[i]));
        }
    }
    if s.len() > 0 && !('0' <= s[0] <= '9') && s[0] != '+' && s[0] != '-' {
        assert(!crate::text::digit(s[0]));
    }
}

/// A sysfs file holds a number with white space round it.
pub proof fn law_sysfs_numbers_are_trimmed(bytes: Seq<u8>, before: Seq<char>, s: Seq<char>, after: Seq<char>)
    requires
        bytes.len() > 0,
        vstd::utf8::valid_utf8(bytes),
        vstd::utf8::decode_utf8(bytes) == before + s + after,
        forall|i: int| 0 <= i < before.len() ==> crate::text::white(#[trigger] before[i]),
        forall|i: int| 0 <= i < after.len() ==> crate::text::white(#[trigger] after[i]),
        s.len() > 0,
        !crate::text::white(s[0]),
        !crate::text::white(s.last()),
    ensures
        crate::backlight::sysfs_number(bytes) == crate::text::integer(s),
{
    law_trimming_takes_the_white_space_off(before, s, after);
}

// ---------------------------------------------------------------------------
// Paths
// ---------------------------------------------------------------------------

/// A joined path starts with its base and ends with the rest, and a base that does not end with a slash is given one.
pub proof fn law_paths_are_joined_by_a_slash(base: Seq<char>, rest: Seq<char>)
    ensures
        base.is_prefix_of(crate::text::joined(base, rest)),
        rest.is_suffix_of(crate::text::joined(base, rest)),
        ({
            let r = crate::text::joined(base, rest);
            let slash = base.len() > 0 && base[base.len() - 1] != '/';
            &&& r.len() == base.len() + rest.len() + (if slash {
                1int
            } else {
                0
            })
            &&& slash ==> r[base.len() as int] == '/'
        }),
{
    let r = crate::text::joined(base, rest);
    assert(r.take(base.len() as int) =~= base);
    assert(r.skip(r.len() - rest.len()) =~= rest);
}

// ---------------------------------------------------------------------------
// The command line
// ---------------------------------------------------------------------------

/// What is asked for once stays asked for, whatever follows.
pub proof fn law_wishes_stay(w: Wishes, args: Seq<String>, i: int)
    requires
        0 <= i,
    ensures
        w.show_help ==> crate::config::wishes(w, args, i).show_help,
        w.show_version ==> crate::config::wishes(w, args, i).show_version,
        w.dry_run ==> crate::config::wishes(w, args, i).dry_run,
        w.status_mode ==> crate::config::wishes(w, args, i).status_mode,
    decreases args.len() - i,
{
    if i < args.len() {
        if crate::config::takes_path(args[i]@) {
            if i + 1 < args.len() {
                law_wishes_stay(Wishes { config_path: args[i + 1]@, ..w }, args, i + 2);
            }
        } else {
            law_wishes_stay(crate::config::wish(w, args[i]@), args, i + 1);
        }
    }
}

/// The path behind the last option for it is taken: where no such option follows, it is the one that stood there.
pub proof fn law_last_path_counts(w: Wishes, args: Seq<String>, i: int)
    requires
        0 <= i,
        forall|k: int| i <= k < args.len() ==> (#[trigger] args[k])@ != "-c"@ && args[k]@ != "--config"@,
    ensures
        crate::config::wishes(w, args, i).config_path == w.config_path,
    decreases args.len() - i,
{
    if i < args.len() {
        assert(args[i]@ != "-c"@);
        law_last_path_counts(crate::config::wish(w, args[i]@), args, i + 1);
    }
}

/// The names of the log levels, and nothing else, stand for them.
pub proof fn law_level_names(name: Seq<char>)
    ensures
        crate::config::level_named(name) == LogLevel::Info <==> name == "info"@,
        crate::config::level_named(name) == LogLevel::Debug <==> name == "debug"@,
        crate::config::level_named(name) == LogLevel::Trace <==> name == "trace"@,
{
    reveal_strlit("info");
    reveal_strlit("debug");
    reveal_strlit("trace");
    assert("debug"@[0] != "trace"@[0]);
    assert("info"@.len() != "debug"@.len());
    assert("info"@.len() != "trace"@.len());
}

} // verus!
