//! The order and the text of paths, and the text and the dates of other values.

use crate::conflict_labels;
use crate::hex_util;
use crate::order;
use crate::repo_path;
use crate::repo_path::NameView;
use crate::repo_path::PathView;
use crate::timestamp;
use crate::timestamp::DateTime;
use crate::timestamp::Timestamp;
use crate::tree_value;
use crate::tree_value::MergedValueView;
use crate::tree_value::TreeValueView;
use vstd::prelude::*;
use vstd::utf8::*;

verus! {

/// Whether two sequences agree up to a place, where the first one ends or has the lower
/// element.
pub open spec fn is_lower_at<A>(
    less: spec_fn(A, A) -> bool,
    a: Seq<A>,
    b: Seq<A>,
    place: int,
) -> bool {
    &&& 0 <= place <= a.len()
    &&& place < b.len()
    &&& forall|i: int| 0 <= i < place ==> #[trigger] a[i] == b[i]
    &&& place == a.len() || (a[place] != b[place] && less(a[place], b[place]))
}

proof fn lemma_lower_at<A>(less: spec_fn(A, A) -> bool, a: Seq<A>, b: Seq<A>)
    ensures
        order::lex_less(less, a, b) == exists|place: int| #[trigger]
            is_lower_at(less, a, b, place),
    decreases a.len(),
{
    if a.len() == 0 {
        if b.len() > 0 {
            assert(is_lower_at(less, a, b, 0));
        }
    } else if b.len() > 0 {
        if a[0] != b[0] {
            if less(a[0], b[0]) {
                assert(is_lower_at(less, a, b, 0));
            }
            if exists|place: int| #[trigger] is_lower_at(less, a, b, place) {
                let place = choose|place: int| #[trigger] is_lower_at(less, a, b, place);
                assert(place == 0);
            }
        } else {
            let (c, d) = (a.drop_first(), b.drop_first());
            lemma_lower_at(less, c, d);
            if exists|place: int| #[trigger] is_lower_at(less, c, d, place) {
                let place = choose|place: int| #[trigger] is_lower_at(less, c, d, place);
                assert forall|i: int| 0 <= i < place + 1 implies #[trigger] a[i] == b[i] by {
                    if i > 0 {
                        assert(c[i - 1] == d[i - 1]);
                    }
                }
                assert(is_lower_at(less, a, b, place + 1));
            }
            if exists|place: int| #[trigger] is_lower_at(less, a, b, place) {
                let place = choose|place: int| #[trigger] is_lower_at(less, a, b, place);
                assert(place > 0);
                assert forall|i: int| 0 <= i < place - 1 implies #[trigger] c[i] == d[i] by {
                    assert(a[i + 1] == b[i + 1]);
                }
                assert(is_lower_at(less, c, d, place - 1));
            }
        }
    }
}

/// Whether a sequence is lower than another at some place.
pub open spec fn comes_before<A>(less: spec_fn(A, A) -> bool, a: Seq<A>, b: Seq<A>) -> bool {
    exists|place: int| #[trigger] is_lower_at(less, a, b, place)
}

/// The order of bytes by their values.
pub open spec fn lower_bytes() -> spec_fn(u8, u8) -> bool {
    |m: u8, n: u8| m < n
}

/// The order of names by the bytes of their encodings.
pub open spec fn lower_names() -> spec_fn(NameView, NameView) -> bool {
    |m: NameView, n: NameView| comes_before(lower_bytes(), encode_utf8(m), encode_utf8(n))
}

/// A path comes before another if the first name in which they differ does, or if it is a
/// directory on the way to the other. A name comes before another if the first byte in
/// which their encodings differ is lower, or if its encoding begins the other's.
pub proof fn law_order_of_paths(a: PathView, b: PathView)
    ensures
        order::path_less(a, b) == comes_before(lower_names(), a, b),
        forall|x: NameView, y: NameView| #[trigger]
            order::name_less(x, y) == comes_before(lower_bytes(), encode_utf8(x), encode_utf8(y)),
        forall|x: Seq<u8>, y: Seq<u8>| #[trigger]
            order::bytes_less(x, y) == comes_before(lower_bytes(), x, y),
{
    assert(lower_bytes() =~= order::byte_order());
    assert forall|x: Seq<u8>, y: Seq<u8>| #[trigger] order::bytes_less(x, y) == comes_before(
        lower_bytes(),
        x,
        y,
    ) by {
        lemma_lower_at(lower_bytes(), x, y);
    }
    assert forall|x: NameView, y: NameView| #[trigger] order::name_less(x, y) == comes_before(
        lower_bytes(),
        encode_utf8(x),
        encode_utf8(y),
    ) by {
        assert(order::name_less(x, y) == order::bytes_less(encode_utf8(x), encode_utf8(y)));
    }
    assert forall|x: NameView, y: NameView| #[trigger] lower_names()(x, y) == order::name_order()(
        x,
        y,
    ) by {
        assert(order::name_less(x, y) == comes_before(
            lower_bytes(),
            encode_utf8(x),
            encode_utf8(y),
        ));
    }
    assert(lower_names() =~= order::name_order());
    lemma_lower_at(lower_names(), a, b);
}

/// The text of the path of a name in a directory is the text of the directory, a slash and
/// the name. In the root directory it is the name alone.
pub proof fn law_text_of_path(dir: PathView, name: NameView)
    ensures
        repo_path::path_text(PathView::empty()) == Seq::<char>::empty(),
        repo_path::path_text(dir.push(name)) == if dir.len() == 0 {
            name
        } else {
            repo_path::path_text(dir) + seq!['/'] + name
        },
{
    let path = dir.push(name);
    assert(path.drop_last() =~= dir);
    assert(path.last() == name);
    reveal_strlit("/");
    assert("/"@ =~= seq!['/']);
}

/// A path starts with another if some names lead from the other to it. A name is valid if
/// it is not empty and no character of it is a slash.
pub proof fn law_path_prefix(path: PathView, base: PathView, name: NameView)
    ensures
        repo_path::path_starts_with(path, base) == exists|rest: PathView| path == #[trigger] (base
            + rest),
        repo_path::valid_name(name) == (name.len() != 0 && forall|i: int|
            0 <= i < name.len() ==> #[trigger] name[i] != '/'),
{
    if repo_path::path_starts_with(path, base) {
        let rest = path.skip(base.len() as int);
        assert(base + rest =~= path);
    }
    if exists|rest: PathView| path == #[trigger] (base + rest) {
        let rest = choose|rest: PathView| path == #[trigger] (base + rest);
        assert((base + rest).take(base.len() as int) =~= base);
    }
    if name.contains('/') {
        let i = choose|i: int| 0 <= i < name.len() && name[i] == '/';
        assert(name[i] == '/');
    }
}

/// The value of a digit `0` to `9` or `a` to `f`.
pub open spec fn digit_value(c: char) -> int {
    if '0' <= c <= '9' {
        c as int - '0' as int
    } else {
        c as int - 'a' as int + 10
    }
}

/// The text of bytes has two digits for each byte, and the value of these is the byte. A
/// digit is one of `0` to `9` and `a` to `f`, or else one of the letters from `z` down to
/// `k`, which stand for the same values.
pub proof fn law_text_of_bytes(bytes: Seq<u8>, i: int)
    requires
        0 <= i < bytes.len(),
    ensures
        ({
            let text = hex_util::spell(hex_util::hex_digits(), bytes);
            let letters = hex_util::spell(hex_util::reverse_hex_digits(), bytes);
            let (high, low) = (text[2 * i], text[2 * i + 1]);
            &&& text.len() == 2 * bytes.len()
            &&& '0' <= high <= '9' || 'a' <= high <= 'f'
            &&& '0' <= low <= '9' || 'a' <= low <= 'f'
            &&& digit_value(high) * 16 + digit_value(low) == bytes[i]
            &&& letters.len() == 2 * bytes.len()
            &&& letters[2 * i] as int == 'z' as int - digit_value(high)
            &&& letters[2 * i + 1] as int == 'z' as int - digit_value(low)
        }),
{
    assert(hex_util::nibble(bytes, 2 * i) == bytes[i] as int / 16);
    assert(hex_util::nibble(bytes, 2 * i + 1) == bytes[i] as int % 16);
    lemma_digits(bytes[i] as int / 16);
    lemma_digits(bytes[i] as int % 16);
}

proof fn lemma_digits(n: int)
    requires
        0 <= n < 16,
    ensures
        '0' <= hex_util::hex_digits()[n] <= '9' || 'a' <= hex_util::hex_digits()[n] <= 'f',
        digit_value(hex_util::hex_digits()[n]) == n,
        hex_util::reverse_hex_digits()[n] as int == 'z' as int - n,
{
}

/// The value of a letter from `z` down to `k`, in either case, by its ASCII code.
pub open spec fn letter_value(b: u8) -> int {
    if b >= 97 {
        122 - b
    } else {
        90 - b
    }
}

/// A text can be read if it has an even number of the letters `k` to `z`, in either case,
/// and nothing else. It gives a byte for each two letters, the value of these.
pub proof fn law_bytes_of_text(text: Seq<u8>, i: int)
    ensures
        (hex_util::reverse_hex_decoded(text) is Some) == (text.len() % 2 == 0 && forall|k: int|
            0 <= k < text.len() ==> 107 <= #[trigger] text[k] <= 122 || 75 <= text[k] <= 90),
        hex_util::reverse_hex_decoded(text) is Some ==> {
            let bytes = hex_util::reverse_hex_decoded(text)->0;
            &&& bytes.len() * 2 == text.len()
            &&& 0 <= i < bytes.len() ==> bytes[i] == letter_value(text[2 * i]) * 16 + letter_value(
                text[2 * i + 1],
            )
        },
{
    if text.len() % 2 == 0 && forall|k: int|
        0 <= k < text.len() ==> 107 <= #[trigger] text[k] <= 122 || 75 <= text[k] <= 90 {
        assert forall|k: int| 0 <= k < text.len() implies hex_util::reverse_hex_value(
            #[trigger] text[k],
        ) is Some by {}
    }
    if hex_util::reverse_hex_decoded(text) is Some {
        assert forall|k: int| 0 <= k < text.len() implies 107 <= #[trigger] text[k] <= 122 || 75
            <= text[k] <= 90 by {
            assert(hex_util::reverse_hex_value(text[k]) is Some);
        }
        if 0 <= i < text.len() / 2 {
            assert(hex_util::reverse_hex_value(text[2 * i]) is Some);
            assert(hex_util::reverse_hex_value(text[2 * i + 1]) is Some);
        }
    }
}

/// The timestamp of a date is the last millisecond that is not after it, and the whole
/// minutes of its offset, towards UTC.
pub proof fn law_timestamp_of_date(date: DateTime)
    requires
        date.valid(),
    ensures
        ({
            let r = timestamp::timestamp_of(date);
            let nanos = date.secs * 1_000_000_000 + date.nanos;
            let minutes = r.tz_offset as int;
            &&& r.timestamp.0 * 1_000_000 <= nanos < (r.timestamp.0 + 1) * 1_000_000
            &&& date.offset >= 0 ==> minutes * 60 <= date.offset < (minutes + 1) * 60
            &&& date.offset <= 0 ==> (minutes - 1) * 60 < date.offset <= minutes * 60
        }),
{
}

/// The date of a timestamp is the same moment, and has the same offset if this is less
/// than a day. A timestamp is out of range if its date is before the first or after the
/// last one.
pub proof fn law_date_of_timestamp(t: Timestamp)
    requires
        i32::MIN <= t.tz_offset * 60 <= i32::MAX,
    ensures
        timestamp::in_range(t) == (timestamp::MIN_SECS * 1000 <= t.timestamp.0 < (
        timestamp::MAX_SECS + 1) * 1000),
        timestamp::in_range(t) ==> {
            let date = timestamp::datetime_of(t);
            &&& date.secs * 1_000_000_000 + date.nanos == t.timestamp.0 * 1_000_000
            &&& date.nanos < 1_000_000_000
            &&& date.offset == if -1440 < t.tz_offset < 1440 {
                t.tz_offset * 60
            } else {
                0
            }
        },
{
}

/// What a term is called, without its ID.
pub open spec fn kind_text(value: TreeValueView) -> Seq<char> {
    match value {
        TreeValueView::File { executable: true, .. } => "executable file with id "@,
        TreeValueView::File { executable: false, .. } => "file with id "@,
        TreeValueView::Symlink(_) => "symlink with id "@,
        TreeValueView::Tree(_) => "tree with id "@,
        TreeValueView::GitSubmodule(_) => "Git submodule with id "@,
    }
}

/// The bytes of the ID of a term.
pub open spec fn id_of(value: TreeValueView) -> Seq<u8> {
    match value {
        TreeValueView::File { id, .. } => id,
        TreeValueView::Symlink(id) => id,
        TreeValueView::Tree(id) => id,
        TreeValueView::GitSubmodule(id) => id,
    }
}

/// The label at a place in brackets, if there is one.
pub open spec fn label_text(labels: Seq<Seq<char>>, place: int) -> Seq<char> {
    if 0 <= place < labels.len() && labels[place].len() > 0 {
        " ("@ + labels[place] + ")"@
    } else {
        Seq::empty()
    }
}

/// The line for the term at a place.
pub open spec fn line_at(
    verb: Seq<char>,
    terms: MergedValueView,
    labels: Seq<Seq<char>>,
    place: int,
) -> Seq<char> {
    match terms[place] {
        Some(value) => verb + kind_text(value) + hex_util::spell(
            hex_util::hex_digits(),
            id_of(value),
        ) + label_text(labels, place) + "\n"@,
        None => Seq::empty(),
    }
}

/// The lines for the terms at a number of places, from `first` on, with a term between
/// each two of them.
pub open spec fn lines_from(
    verb: Seq<char>,
    terms: MergedValueView,
    labels: Seq<Seq<char>>,
    first: int,
) -> Seq<char>
    decreases terms.len() + 1 - first,
{
    if first < terms.len() {
        line_at(verb, terms, labels, first) + lines_from(verb, terms, labels, first + 2)
    } else {
        Seq::empty()
    }
}

proof fn lemma_lines(
    verb: Seq<char>,
    terms: MergedValueView,
    labels: Seq<Seq<char>>,
    first: int,
    count: nat,
)
    requires
        first + 2 * count == terms.len() || first + 2 * count == terms.len() + 1 || first + 2
            * count < terms.len(),
        first >= 0,
    ensures
        lines_from(verb, terms, labels, first) == tree_value::term_lines(
            verb,
            terms,
            labels,
            first,
            count,
        ) + lines_from(verb, terms, labels, first + 2 * count),
    decreases count,
{
    if count == 0 {
        assert(Seq::<char>::empty() + lines_from(verb, terms, labels, first) =~= lines_from(
            verb,
            terms,
            labels,
            first,
        ));
    } else {
        let fewer = (count - 1) as nat;
        let place = first + 2 * fewer;
        lemma_lines(verb, terms, labels, first, fewer);
        let before = tree_value::term_lines(verb, terms, labels, first, fewer);
        let rest = lines_from(verb, terms, labels, place + 2);
        let line = line_at(verb, terms, labels, place);
        if let Some(value) = terms[place] {
            let id = hex_util::spell(hex_util::hex_digits(), id_of(value));
            assert(verb + (kind_text(value) + id) =~= verb + kind_text(value) + id);
            assert(tree_value::term_line(
                verb,
                value,
                conflict_labels::term_label(labels, place),
            ) =~= line);
        }
        assert(before + (line + rest) =~= (before + line) + rest);
    }
}

/// A merge is described by a title, a line for each term that is removed, and then one for
/// each that is added. A line says what a term is, its ID, and its label if it has one.
/// There is none for a term that is absent.
pub proof fn law_description(terms: MergedValueView, labels: Seq<Seq<char>>)
    requires
        terms.len() % 2 == 1,
    ensures
        tree_value::description(terms, labels) == "Conflict:\n"@ + lines_from(
            "  Removing "@,
            terms,
            labels,
            1,
        ) + lines_from("  Adding "@, terms, labels, 0),
{
    let n = terms.len() as int;
    assert((n + 1) / 2 == n / 2 + 1);
    lemma_lines("  Removing "@, terms, labels, 1, (n / 2) as nat);
    lemma_lines("  Adding "@, terms, labels, 0, (n / 2 + 1) as nat);
    let removed = tree_value::term_lines("  Removing "@, terms, labels, 1, (n / 2) as nat);
    let added = tree_value::term_lines("  Adding "@, terms, labels, 0, (n / 2 + 1) as nat);
    assert(removed + Seq::empty() =~= removed);
    assert(added + Seq::empty() =~= added);
}

} // verus!
