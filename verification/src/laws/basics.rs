//! Orders, paths, numbers and dates that the answers rest on.

use vstd::prelude::*;
use vstd::string::*;

use crate::convert::{file_url, is_lsp_uri, path_to_uri};
use crate::handlers::{range_by, shows_location, Texts};
use crate::model::{LangId, SourceRange};
use crate::order::text_precedes;
use crate::path::{
    is_portable, is_under, is_unprefixed, name_of, part_precedes, path_parts, path_precedes, DocPath, Part,
};
use crate::position::{byte_column_range, range_in, Encoding};
use crate::protocol::Location;
use crate::shards::io::{
    date_of, day_number, is_date, is_safe_shard_name, month_length, padded_text,
};
use crate::shards::{relative, stripped_path};
use crate::text::{byte_len, decimal_text, signed_text};
use crate::types::{plain_spelling, url_file_path, DocUri, RootDir};

verus! {

// ---------------------------------------------------------------------------
// Orders

/// Texts come in the order of their characters: at the first place where they differ the
/// smaller code point comes first, and a text comes before one that it begins.
pub proof fn texts_come_by_code_point(a: Seq<char>, b: Seq<char>)
    ensures
        text_precedes(a, b) <==> exists|k: int| #[trigger] texts_part_at(a, b, k),
    decreases a.len(),
{
    if a.len() > 0 && b.len() > 0 {
        let (x, y) = (a.drop_first(), b.drop_first());
        texts_come_by_code_point(x, y);
        if text_precedes(a, b) {
            if (a[0] as u32) < (b[0] as u32) {
                assert(a.take(0) =~= b.take(0));
                assert(texts_part_at(a, b, 0));
            } else {
                let k = choose|k: int| #[trigger] texts_part_at(x, y, k);
                assert(a.take(k + 1) =~= seq![a[0]] + x.take(k));
                assert(b.take(k + 1) =~= seq![b[0]] + y.take(k));
                assert(texts_part_at(a, b, k + 1));
            }
        }
        if exists|k: int| #[trigger] texts_part_at(a, b, k) {
            let k = choose|k: int| #[trigger] texts_part_at(a, b, k);
            if k > 0 {
                assert(a.take(k)[0] == b.take(k)[0]);
                assert(x.take(k - 1) =~= a.take(k).drop_first());
                assert(y.take(k - 1) =~= b.take(k).drop_first());
                assert(texts_part_at(x, y, k - 1));
            }
        }
    } else {
        if text_precedes(a, b) {
            assert(a.take(0) =~= b.take(0));
            assert(texts_part_at(a, b, 0));
        }
    }
}

/// Two texts agree up to a place, and there the first one ends or has the smaller code
/// point.
pub open spec fn texts_part_at(a: Seq<char>, b: Seq<char>, k: int) -> bool {
    &&& 0 <= k <= a.len() && k < b.len()
    &&& a.take(k) == b.take(k)
    &&& k == a.len() || (a[k] as u32) < (b[k] as u32)
}

/// Paths come in the order of their components: at the first one where they differ, and a
/// path comes before those below it.
pub proof fn paths_come_by_component(a: Seq<Part>, b: Seq<Part>)
    ensures
        path_precedes(a, b) <==> exists|k: int| #[trigger] paths_part_at(a, b, k),
    decreases a.len(),
{
    if a.len() > 0 && b.len() > 0 {
        let (x, y) = (a.drop_first(), b.drop_first());
        paths_come_by_component(x, y);
        if path_precedes(a, b) {
            if part_precedes(a[0], b[0]) {
                assert(a.take(0) =~= b.take(0));
                assert(paths_part_at(a, b, 0));
            } else {
                let k = choose|k: int| #[trigger] paths_part_at(x, y, k);
                assert(a.take(k + 1) =~= seq![a[0]] + x.take(k));
                assert(b.take(k + 1) =~= seq![b[0]] + y.take(k));
                assert(paths_part_at(a, b, k + 1));
            }
        }
        if exists|k: int| #[trigger] paths_part_at(a, b, k) {
            let k = choose|k: int| #[trigger] paths_part_at(a, b, k);
            if k > 0 {
                assert(a.take(k)[0] == b.take(k)[0]);
                assert(x.take(k - 1) =~= a.take(k).drop_first());
                assert(y.take(k - 1) =~= b.take(k).drop_first());
                assert(paths_part_at(x, y, k - 1));
            }
        }
    } else {
        if path_precedes(a, b) {
            assert(a.take(0) =~= b.take(0));
            assert(paths_part_at(a, b, 0));
        }
    }
}

/// Two paths agree up to a component, and there the first one ends or has the smaller
/// component.
pub open spec fn paths_part_at(a: Seq<Part>, b: Seq<Part>, k: int) -> bool {
    &&& 0 <= k <= a.len() && k < b.len()
    &&& a.take(k) == b.take(k)
    &&& k == a.len() || part_precedes(a[k], b[k])
}

/// Components come by their sort, prefix, root, `.`, `..`, name, and names by their text.
pub proof fn components_come_by_sort(x: Seq<char>, y: Seq<char>)
    ensures
        part_precedes(Part::Prefix(x), Part::Root),
        part_precedes(Part::Root, Part::Current),
        part_precedes(Part::Current, Part::Parent),
        part_precedes(Part::Parent, Part::Name(y)),
        part_precedes(Part::Name(x), Part::Name(y)) <==> text_precedes(x, y),
        part_precedes(Part::Prefix(x), Part::Prefix(y)) <==> text_precedes(x, y),
        !part_precedes(Part::Name(x), Part::Parent) && !part_precedes(Part::Parent, Part::Current)
            && !part_precedes(Part::Current, Part::Root) && !part_precedes(Part::Root, Part::Prefix(y)),
{
}

/// A path lies under another if and only if it is that one with components behind it.
pub proof fn a_path_under_another_continues_it(path: Seq<Part>, base: Seq<Part>, rest: Seq<Part>)
    ensures
        is_under(base + rest, base),
        is_under(path, base) ==> path == base + path.skip(base.len() as int),
        path.len() < base.len() ==> !is_under(path, base),
{
    assert((base + rest).take(base.len() as int) =~= base);
    if is_under(path, base) {
        assert(path =~= path.take(base.len() as int) + path.skip(base.len() as int));
    }
}

/// The name of a path is its last component, if that is a name.
pub proof fn a_path_is_named_by_its_end(path: Seq<Part>, name: Seq<char>)
    ensures
        name_of(path.push(Part::Name(name))) == Some(name),
        name_of(path) matches Some(own) ==> path.len() > 0 && path.last() == Part::Name(own),
        name_of(path.push(Part::Parent)) is None,
        name_of(Seq::empty()) is None,
{
}

// ---------------------------------------------------------------------------
// Ranges

/// A range is shown by the text of its file where that is at hand, and else by the lines
/// and columns that the engine counted.
pub proof fn ranges_go_by_the_text(
    texts: Texts,
    path: Seq<Part>,
    text: Seq<char>,
    range: SourceRange,
    encoding: Encoding,
)
    ensures
        texts[path] == Some(text) ==> range_by(texts, path, range, encoding) == range_in(
            text,
            range,
            encoding,
        ),
        texts[path] is None && range.start.line <= u32::MAX && range.start.column <= u32::MAX
            && range.end.line <= u32::MAX && range.end.column <= u32::MAX ==> ({
            let shown = range_by(texts, path, range, encoding);
            &&& shown.start.line == range.start.line && shown.start.character == range.start.column
            &&& shown.end.line == range.end.line && shown.end.character == range.end.column
        }),
{
}

/// A location shows a range of a file at the address of its path, by the text looked up
/// for it.
pub proof fn a_location_shows_its_place(
    location: Location,
    texts: Texts,
    path: DocPath,
    range: SourceRange,
    encoding: Encoding,
)
    ensures
        shows_location(location, texts, path, range, encoding) <==> {
            &&& crate::convert::uri_of_path(path.spelling()) == Some(location.uri@)
            &&& texts.contains_key(path@)
            &&& location.range == (match texts[path@] {
                Some(text) => range_in(text, range, encoding),
                None => byte_column_range(range),
            })
        },
{
}

/// The address of a path is the file URL of its plainest spelling.
pub proof fn an_address_is_the_file_url(path: Seq<char>, url: Seq<char>)
    ensures
        crate::convert::uri_of_path(path) == Some(url) <==> file_url(plain_spelling(path)) == Some(
            url,
        ) && byte_len(url) <= i32::MAX && is_lsp_uri(url),
{
}

/// A file is stored under what is left of its path without the root, or under its path
/// where that does not begin with the root.
pub proof fn a_file_is_stored_without_the_root(root: RootDir, path: DocPath, r: DocPath)
    requires
        call_ensures(relative, (&root, &path), r),
    ensures
        match stripped_path(path.spelling(), root.spelling()) {
            Some(rest) => r.spelling() == rest && r@ == path_parts(rest),
            None => r.spelling() == path.spelling(),
        },
        is_under(path@, root@) && is_unprefixed(path@) && is_unprefixed(r@) ==> r@ == path@.skip(
            root@.len() as int,
        ),
{
}

// ---------------------------------------------------------------------------
// Numbers

/// The number that decimal digits spell.
pub open spec fn value(digits: Seq<char>) -> int
    decreases digits.len(),
{
    if digits.len() == 0 {
        0
    } else {
        10 * value(digits.drop_last()) + (digits.last() as u32 as int - '0' as u32 as int)
    }
}

/// A number is written in decimal digits that spell it, without a zero in front but for
/// zero itself; a negative one behind a minus sign.
pub proof fn numbers_are_written_in_decimal(n: nat)
    ensures
        value(decimal_text(n)) == n,
        decimal_text(n).len() > 0,
        n > 0 ==> decimal_text(n)[0] != '0',
        n == 0 ==> decimal_text(n) == seq!['0'],
        forall|k: int|
            0 <= k < decimal_text(n).len() ==> '0' <= #[trigger] decimal_text(n)[k] && decimal_text(
                n,
            )[k] <= '9',
        signed_text(n as int) == decimal_text(n),
        n > 0 ==> signed_text(-(n as int)) == seq!['-'] + decimal_text(n),
    decreases n,
{
    reveal_strlit("0123456789");
    reveal_strlit("-");
    assert("-"@ =~= seq!['-']);
    assert forall|d: int| 0 <= d < 10 implies #[trigger] "0123456789"@[d] as u32 as int == '0' as u32
        + d by {}
    if n >= 10 {
        numbers_are_written_in_decimal(n / 10);
        let less = decimal_text(n / 10);
        assert(decimal_text(n).drop_last() =~= less);
        assert(decimal_text(n)[0] == less[0]);
    } else {
        reveal_with_fuel(value, 2);
        assert(decimal_text(n).drop_last() =~= Seq::<char>::empty());
        assert(n == 0 ==> decimal_text(n) =~= seq!['0']);
    }
    crate::text::lemma_decimal_digits(n);
}

/// A padded number is its digits behind as many zeros as the width lacks.
pub proof fn padding_puts_zeros_in_front(n: nat, width: int)
    ensures
        decimal_text(n).len() >= width ==> padded_text(n, width) == decimal_text(n),
        decimal_text(n).len() < width ==> padded_text(n, width).len() == width,
        value(padded_text(n, width)) == n,
{
    numbers_are_written_in_decimal(n);
    let digits = decimal_text(n);
    let zeros = padded_text(n, width).take(padded_text(n, width).len() - digits.len());
    if digits.len() >= width {
        assert(padded_text(n, width) =~= digits);
    } else {
        assert(padded_text(n, width) =~= zeros + digits);
        lemma_value_concat(zeros, digits);
        lemma_zeros(zeros);
    }
}

proof fn lemma_value_concat(x: Seq<char>, y: Seq<char>)
    ensures
        value(x) == 0 ==> value(x + y) == value(y),
    decreases y.len(),
{
    if y.len() == 0 {
        assert(x + y =~= x);
    } else {
        assert((x + y).drop_last() =~= x + y.drop_last());
        lemma_value_concat(x, y.drop_last());
    }
}

proof fn lemma_zeros(x: Seq<char>)
    requires
        forall|k: int| 0 <= k < x.len() ==> #[trigger] x[k] == '0',
    ensures
        value(x) == 0,
    decreases x.len(),
{
    if x.len() > 0 {
        lemma_zeros(x.drop_last());
    }
}

// ---------------------------------------------------------------------------
// Dates

/// The calendar is the Gregorian one: the first of January 1970 is day zero, each date is
/// one day after the one before it, months have their lengths, and every fourth year is a
/// leap year but for three centuries in four.
pub proof fn the_calendar_is_gregorian(year: int, month: int, day: int)
    requires
        is_date((year, month, day)),
    ensures
        day_number((1970, 1, 1)) == 0,
        month_length(year, month) == (if month == 4 || month == 6 || month == 9 || month == 11 {
            30int
        } else if month == 2 {
            if year % 400 == 0 || year % 4 == 0 && year % 100 != 0 {
                29
            } else {
                28
            }
        } else {
            31
        }),
        1 <= month <= 12 && 1 <= day <= month_length(year, month),
        day < month_length(year, month) ==> day_number((year, month, day + 1)) == day_number(
            (year, month, day),
        ) + 1,
        day == month_length(year, month) && month < 12 ==> day_number((year, month + 1, 1))
            == day_number((year, month, day)) + 1,
        day == month_length(year, month) && month == 12 ==> day_number((year + 1, 1, 1))
            == day_number((year, month, day)) + 1,
{
    crate::shards::io::years_follow_each_other(year);
    reveal_with_fuel(crate::shards::io::days_before_month, 3);
}

/// A moment is written as its date and its time of day, to the second, in universal time.
pub proof fn a_moment_is_written_in_full(seconds: u64, date: (int, int, int), r: String)
    requires
        call_ensures(crate::shards::io::timestamp, (seconds,), r),
        is_date(date),
        day_number(date) == seconds as int / 86_400,
    ensures
        ({
            let clock = seconds as int % 86_400;
            r@ == padded_text(date.0 as nat, 4) + "-"@ + padded_text(date.1 as nat, 2) + "-"@
                + padded_text(date.2 as nat, 2) + "T"@ + padded_text((clock / 3600) as nat, 2)
                + ":"@ + padded_text((clock / 60 % 60) as nat, 2) + ":"@ + padded_text(
                (clock % 60) as nat,
                2,
            ) + "Z"@
        }),
{
    let days = seconds as int / 86_400;
    let own = date_of(days);
    assert(is_date(own) && day_number(own) == days);
    crate::shards::io::a_day_has_one_date(own, date);
    let clock = seconds as int % 86_400;
    assert((clock % 3600) / 60 == clock / 60 % 60) by (nonlinear_arith)
        requires
            0 <= clock < 86_400,
    ;
}

// ---------------------------------------------------------------------------
// Names

/// A name is safe if and only if it begins in `shards` and has neither a root nor a `..`
/// anywhere.
pub proof fn safe_names_stay_in_shards(name: &str, r: bool)
    requires
        call_ensures(is_safe_shard_name, (name,), r),
    ensures
        r <==> {
            let parts = path_parts(name@);
            &&& parts.len() > 0 && parts[0] == Part::Name("shards"@)
            &&& forall|k: int|
                0 <= k < parts.len() ==> (#[trigger] parts[k]) != Part::Root && parts[k] != Part::Parent
        },
{
    let parts = path_parts(name@);
    if r {
        assert forall|k: int| 0 <= k < parts.len() implies (#[trigger] parts[k]) != Part::Root
            && parts[k] != Part::Parent by {
            assert(parts.contains(parts[k]));
        }
    }
}

/// Every language is called by its own name.
pub proof fn languages_have_their_names()
    ensures
        LangId::Python.spec_name() == "python"@,
        LangId::JavaScript.spec_name() == "javascript"@,
        LangId::TypeScript.spec_name() == "typescript"@,
        LangId::Tsx.spec_name() == "tsx"@,
        LangId::C.spec_name() == "c"@,
        LangId::Cpp.spec_name() == "cpp"@,
        LangId::Rust.spec_name() == "rust"@,
        LangId::Go.spec_name() == "go"@,
        LangId::Ruby.spec_name() == "ruby"@,
{
}

/// A path has an address if and only if the file URL of its plainest spelling is one that
/// the protocol takes; then that.
pub proof fn a_path_has_the_address_of_its_file(path: DocPath, r: Option<String>)
    requires
        call_ensures(path_to_uri, (&path,), r),
    ensures
        match file_url(plain_spelling(path.spelling())) {
            Some(url) => (r is Some <==> byte_len(url) <= i32::MAX && is_lsp_uri(url)) && (r
                matches Some(uri) ==> uri@ == url),
            None => r is None,
        },
        is_portable(path.spelling()) ==> plain_spelling(path.spelling()) == path.spelling(),
{
}

/// A file address has the path that the URL names, with the components of that; no other
/// address has one.
pub proof fn a_file_address_has_its_path(uri: DocUri, r: Option<&DocPath>)
    requires
        call_ensures(DocUri::to_path, (&uri,), r),
    ensures
        r is Some <==> uri@.len() >= 5 && uri@.take(5) == "file:"@ && url_file_path(uri@) is Some,
        r matches Some(path) ==> url_file_path(uri@) == Some(path.spelling()) && path@ == path_parts(
            path.spelling(),
        ),
{
    reveal_strlit("file:");
    assert("file:"@.len() == 5);
}

} // verus!
