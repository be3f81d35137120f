//! The operations on `http::HeaderMap` that the limiter uses, over the map's contents: for
//! each name, in lower case, the values in the order in which they were added.
use http::{HeaderMap, HeaderName, HeaderValue};
use vstd::prelude::*;
use vstd::utf8::encode_utf8;

verus! {

broadcast use vstd::seq_lib::group_seq_properties;

/// The map of header names to values of the `http` crate.
#[verifier::external_type_specification]
#[verifier::external_body]
#[verifier::reject_recursive_types(T)]
pub struct ExHeaderMap<T>(http::HeaderMap<T>);

/// One header value of the `http` crate.
#[verifier::external_type_specification]
#[verifier::external_body]
pub struct ExHeaderValue(http::HeaderValue);

/// What a header map holds: for each name the bytes of its values, first to last.
pub uninterp spec fn header_contents(map: http::HeaderMap<http::HeaderValue>) -> Map<
    Seq<char>,
    Seq<Seq<u8>>,
>;

/// The contents of a map without headers.
pub open spec fn no_headers() -> Map<Seq<char>, Seq<Seq<u8>>> {
    Map::empty()
}

/// A character that a header name, in lower case, may hold. HTTP/2 admits the quotation mark.
pub open spec fn name_char(c: char) -> bool {
    ||| 'a' <= c <= 'z'
    ||| '0' <= c <= '9'
    ||| c == '"'
    ||| "!#$%&'*+-.^_`|~"@.contains(c)
}

/// `name` is a header name in lower case.
pub open spec fn name_ok(name: Seq<char>) -> bool {
    0 < name.len() < 65_536 && forall|i: int| 0 <= i < name.len() ==> name_char(#[trigger] name[i])
}

/// A byte that a header value may hold: no control character but the tab.
pub open spec fn value_byte(b: u8) -> bool {
    b == 9 || (b >= 32 && b != 127)
}

/// `value` is a header value.
pub open spec fn value_ok(value: Seq<u8>) -> bool {
    forall|i: int| 0 <= i < value.len() ==> value_byte(#[trigger] value[i])
}

/// Number of names below which a header map is known to take one more.
pub const HEADER_ROOM: usize = 6_553;

/// `map` has few enough names that `more` names can be added.
pub open spec fn has_room(map: http::HeaderMap<http::HeaderValue>, more: nat) -> bool {
    header_contents(map).dom().finite() && header_contents(map).dom().len() + more <= HEADER_ROOM
}

/// The ASCII letters of `s` in lower case.
pub open spec fn lower(s: Seq<char>) -> Seq<char> {
    s.map_values(
        |c: char|
            if 'A' <= c <= 'Z' {
                ((c as u32) + 32) as char
            } else {
                c
            },
    )
}

/// The values of `name`, in any case; none when the map has no such name.
pub open spec fn values_of(contents: Map<Seq<char>, Seq<Seq<u8>>>, name: Seq<char>) -> Seq<
    Seq<u8>,
> {
    if contents.contains_key(lower(name)) {
        contents[lower(name)]
    } else {
        Seq::empty()
    }
}

/// `http::HeaderMap::new`: a map without headers.
#[verifier::external_body]
pub(crate) fn new_header_map() -> (map: HeaderMap)
    ensures
        header_contents(map) == no_headers(),
{
    HeaderMap::new()
}

/// `http::HeaderMap::insert` of `http::HeaderName::from_lowercase`: the name gets the one
/// value, and whatever values it had are gone. A map can be full; one with no more than
/// `HEADER_ROOM` names never is.
#[verifier::external_body]
pub(crate) fn insert_header(map: &mut HeaderMap, name: &str, value: &[u8])
    requires
        name_ok(name@),
        value_ok(value@),
        header_contents(*old(map)).dom().len() < HEADER_ROOM,
    ensures
        header_contents(*final(map)) == header_contents(*old(map)).insert(name@, seq![value@]),
{
    map.insert(
        HeaderName::from_lowercase(name.as_bytes()).unwrap(),
        HeaderValue::from_bytes(value).unwrap(),
    );
}

/// `http::HeaderMap::keys`: every name once, in no promised order. There are finitely many
/// of them and each is a header name in lower case.
#[verifier::external_body]
pub(crate) fn header_names(map: &HeaderMap) -> (names: Vec<String>)
    ensures
        crate::text::views(names@).no_duplicates(),
        crate::text::views(names@).to_set() == header_contents(*map).dom(),
        forall|i: int| 0 <= i < names@.len() ==> name_ok((#[trigger] names@[i])@),
{
    map.keys().map(|n| n.as_str().to_owned()).collect()
}

/// `http::HeaderMap::get` of `http::HeaderName::from_lowercase`: the first value of the name.
/// A text that is no name in lower case is in no map.
#[verifier::external_body]
fn get_first(map: &HeaderMap, name: &str) -> (value: Option<Vec<u8>>)
    ensures
        match value {
            Some(v) => {
                &&& header_contents(*map).contains_key(name@)
                &&& header_contents(*map)[name@].len() > 0
                &&& v@ == header_contents(*map)[name@][0]
                &&& value_ok(v@)
            },
            None => !header_contents(*map).contains_key(name@),
        },
{
    let name = HeaderName::from_lowercase(name.as_bytes()).ok()?;
    map.get(name).map(|v| v.as_bytes().to_vec())
}

/// `http::HeaderMap::get_all` of `http::HeaderName::from_lowercase`: every value of the name,
/// first to last.
#[verifier::external_body]
fn get_every(map: &HeaderMap, name: &str) -> (values: Vec<Vec<u8>>)
    ensures
        header_contents(*map).contains_key(name@) ==> values@.len() == header_contents(
            *map,
        )[name@].len(),
        !header_contents(*map).contains_key(name@) ==> values@.len() == 0,
        forall|i: int|
            0 <= i < values@.len() ==> (#[trigger] values@[i])@ == header_contents(*map)[name@][i],
{
    HeaderName::from_lowercase(name.as_bytes()).map_or(
        Vec::new(),
        |n| map.get_all(n).iter().map(|v| v.as_bytes().to_vec()).collect(),
    )
}

/// `http::HeaderMap::contains_key` of `http::HeaderName::from_lowercase`: whether the map has
/// the name.
#[verifier::external_body]
fn holds_name(map: &HeaderMap, name: &str) -> (r: bool)
    ensures
        r == header_contents(*map).contains_key(name@),
{
    HeaderName::from_lowercase(name.as_bytes()).is_ok_and(|n| map.contains_key(n))
}

/// `s` with its ASCII letters in lower case.
pub(crate) fn lower_text(s: &str) -> (t: String)
    ensures
        t@ == lower(s@),
{
    let mut t: String = String::new();
    for c in chars: s.chars()
        invariant
            chars.seq() == s@,
            t@ == lower(s@.take(chars.index())),
    {
        let ghost i = chars.index();
        if 'A' <= c && c <= 'Z' {
            t.push((c as u8 + 32u8) as char);
        } else {
            t.push(c);
        }
        assert(t@ =~= lower(s@.take(i + 1)));
    }
    assert(s@.take(s@.len() as int) =~= s@);
    t
}

/// The first value of the name, in any case.
pub(crate) fn first_value(map: &HeaderMap, name: &str) -> (value: Option<Vec<u8>>)
    ensures
        match value {
            Some(v) => {
                &&& header_contents(*map).contains_key(lower(name@))
                &&& values_of(header_contents(*map), name@).len() > 0
                &&& v@ == values_of(header_contents(*map), name@)[0]
                &&& value_ok(v@)
            },
            None => !header_contents(*map).contains_key(lower(name@)),
        },
{
    let name: String = lower_text(name);
    get_first(map, name.as_str())
}

/// Every value of the name, in any case, first to last.
pub(crate) fn all_values(map: &HeaderMap, name: &str) -> (values: Vec<Vec<u8>>)
    ensures
        values@.len() == values_of(header_contents(*map), name@).len(),
        forall|i: int|
            0 <= i < values@.len() ==> (#[trigger] values@[i])@ == values_of(
                header_contents(*map),
                name@,
            )[i],
{
    let name: String = lower_text(name);
    get_every(map, name.as_str())
}

/// Whether the map has the name, in any case.
pub(crate) fn has_header(map: &HeaderMap, name: &str) -> (r: bool)
    ensures
        r == header_contents(*map).contains_key(lower(name@)),
{
    let name: String = lower_text(name);
    holds_name(map, name.as_str())
}

/// A byte that counts as text in a header value: visible ASCII, space or tab.
pub open spec fn visible(b: u8) -> bool {
    b == 9 || 32 <= b < 127
}

/// The text of a header value, if all of it is visible ASCII.
pub open spec fn value_text(value: Seq<u8>) -> Option<Seq<char>> {
    if forall|i: int| 0 <= i < value.len() ==> visible(#[trigger] value[i]) {
        Some(value.map_values(|b: u8| b as char))
    } else {
        None
    }
}

/// Read a header value as text.
pub fn to_str(value: &[u8]) -> (text: Option<String>)
    ensures
        match text {
            Some(t) => value_text(value@) == Some(t@),
            None => value_text(value@) is None,
        },
{
    let mut text: String = String::new();
    let mut i: usize = 0;
    while i < value.len()
        invariant
            i <= value@.len(),
            forall|j: int| 0 <= j < i ==> visible(#[trigger] value@[j]),
            text@ == value@.take(i as int).map_values(|b: u8| b as char),
        decreases value@.len() - i,
    {
        let b: u8 = value[i];
        if !(b == 9 || (b >= 32 && b < 127)) {
            assert(!visible(value@[i as int]));
            return None;
        }
        text.push(b as char);
        i = i + 1;
        assert(text@ =~= value@.take(i as int).map_values(|b: u8| b as char));
    }
    assert(value@.take(value@.len() as int) =~= value@);
    Some(text)
}

/// A character that header text written by this library may hold.
pub open spec fn text_char(c: char) -> bool {
    c == '\t' || (c as u32 >= 32 && c as u32 != 127)
}

/// `text` can stand in a header value.
pub open spec fn text_ok(text: Seq<char>) -> bool {
    forall|i: int| 0 <= i < text.len() ==> text_char(#[trigger] text[i])
}

/// Header text encodes to bytes that a header value may hold.
pub proof fn lemma_text_is_value(text: Seq<char>)
    requires
        text_ok(text),
    ensures
        value_ok(encode_utf8(text)),
    decreases text.len(),
{
    if text.len() > 0 {
        lemma_text_is_value(text.drop_first());
        assert(text_char(text[0]));
        let v = text[0] as u32;
        assert(value_ok(vstd::utf8::encode_scalar(v))) by {
            assert(v <= 0x7f ==> (v & 0x7f) as u8 == v) by (bit_vector);
            assert((0xC0u8 | ((v >> 6) & 0x1F) as u8) >= 128u8) by (bit_vector);
            assert((0xE0u8 | ((v >> 12) & 0x0F) as u8) >= 128u8) by (bit_vector);
            assert((0xF0u8 | ((v >> 18) & 0x7) as u8) >= 128u8) by (bit_vector);
            assert((0x80u8 | (v & 0x3F) as u8) >= 128u8) by (bit_vector);
            assert((0x80u8 | ((v >> 6) & 0x3F) as u8) >= 128u8) by (bit_vector);
            assert((0x80u8 | ((v >> 12) & 0x3F) as u8) >= 128u8) by (bit_vector);
        }
    }
}

/// Set the header `name` to `text`.
pub(crate) fn put_text(map: &mut HeaderMap, name: &str, text: &str)
    requires
        name_ok(name@),
        text_ok(text@),
        has_room(*old(map), 1),
    ensures
        header_contents(*final(map)) == header_contents(*old(map)).insert(
            name@,
            seq![encode_utf8(text@)],
        ),
        header_contents(*final(map)).dom().finite(),
        header_contents(*final(map)).dom().len() <= header_contents(*old(map)).dom().len() + 1,
{
    proof {
        lemma_text_is_value(text@);
    }
    insert_header(map, name, text.as_bytes());
    assert(header_contents(*map).dom() =~= header_contents(*old(map)).dom().insert(name@));
}

/// `dst` with the first value of each name in `names` taken over from `extra`.
pub open spec fn overlaid(
    dst: Map<Seq<char>, Seq<Seq<u8>>>,
    extra: Map<Seq<char>, Seq<Seq<u8>>>,
    names: Set<Seq<char>>,
) -> Map<Seq<char>, Seq<Seq<u8>>> {
    Map::new(
        |n: Seq<char>| dst.contains_key(n) || names.contains(n),
        |n: Seq<char>|
            if names.contains(n) {
                seq![extra[n][0]]
            } else {
                dst[n]
            },
    )
}

/// `dst` with every header of `extra` in place of its own of the same name.
pub open spec fn merged(
    dst: Map<Seq<char>, Seq<Seq<u8>>>,
    extra: Map<Seq<char>, Seq<Seq<u8>>>,
) -> Map<Seq<char>, Seq<Seq<u8>>> {
    overlaid(dst, extra, extra.dom())
}

/// `dst` with those headers of `extra` that it lacks.
pub open spec fn filled(
    dst: Map<Seq<char>, Seq<Seq<u8>>>,
    extra: Map<Seq<char>, Seq<Seq<u8>>>,
) -> Map<Seq<char>, Seq<Seq<u8>>> {
    overlaid(dst, extra, extra.dom().difference(dst.dom()))
}

proof fn lemma_lower_name(name: Seq<char>)
    requires
        name_ok(name),
    ensures
        lower(name) == name,
{
    reveal_strlit("!#$%&'*+-.^_`|~");
    assert forall|i: int| 0 <= i < name.len() implies lower(name)[i] == name[i] by {
        assert(name_char(name[i]));
    }
    assert(lower(name) =~= name);
}

/// Copy the headers `names` of `extra` to `dst`.
fn overlay(dst: &mut HeaderMap, extra: &HeaderMap, names: &Vec<String>)
    requires
        has_room(*old(dst), names@.len()),
        forall|i: int|
            0 <= i < names@.len() ==> name_ok((#[trigger] names@[i])@) && header_contents(
                *extra,
            ).contains_key(names@[i]@),
    ensures
        header_contents(*final(dst)) == overlaid(
            header_contents(*old(dst)),
            header_contents(*extra),
            crate::text::views(names@).to_set(),
        ),
{
    let ghost start = header_contents(*dst);
    let ghost all = crate::text::views(names@);
    let mut i: usize = 0;
    assert(overlaid(start, header_contents(*extra), all.take(0).to_set()) =~= start);
    while i < names.len()
        invariant
            i <= names@.len(),
            all == crate::text::views(names@),
            start.dom().finite(),
            start.dom().len() + names@.len() <= HEADER_ROOM,
            header_contents(*dst).dom().finite(),
            header_contents(*dst).dom().len() <= start.dom().len() + i,
            forall|j: int|
                0 <= j < names@.len() ==> name_ok((#[trigger] names@[j])@) && header_contents(
                    *extra,
                ).contains_key(names@[j]@),
            header_contents(*dst) == overlaid(
                start,
                header_contents(*extra),
                all.take(i as int).to_set(),
            ),
        decreases names@.len() - i,
    {
        let ghost before = header_contents(*dst);
        proof {
            assert(name_ok(names@[i as int]@));
            lemma_lower_name(names@[i as int]@);
        }
        if let Some(value) = first_value(extra, names[i].as_str()) {
            insert_header(dst, names[i].as_str(), value.as_slice());
            proof {
                assert(header_contents(*dst).dom() =~= before.dom().insert(names@[i as int]@));
                let less = all.take(i as int);
                let more = all.take(i + 1);
                assert(more =~= less.push(names@[i as int]@));
                assert(more.to_set() =~= less.to_set().insert(names@[i as int]@));
                assert(header_contents(*dst) =~= overlaid(start, header_contents(*extra), more.to_set()));
            }
        }
        i = i + 1;
    }
    assert(all.take(all.len() as int) =~= all);
}

/// Copy `extra` over `dst`: a header that both have takes the value of `extra`.
pub fn merge_headers(dst: &mut HeaderMap, extra: &HeaderMap)
    requires
        has_room(*old(dst), header_contents(*extra).dom().len()),
    ensures
        header_contents(*final(dst)) == merged(header_contents(*old(dst)), header_contents(*extra)),
{
    let names: Vec<String> = header_names(extra);
    proof {
        let all = crate::text::views(names@);
        all.unique_seq_to_set();
        assert forall|i: int| 0 <= i < names@.len() implies header_contents(*extra).contains_key(
            (#[trigger] names@[i])@,
        ) by {
            assert(all[i] == names@[i]@);
            assert(all.to_set().contains(all[i]));
        }
    }
    overlay(dst, extra, &names);
}

/// Add to `dst` those headers of `extra` that it lacks; what it has stays.
pub fn fill_headers(dst: &mut HeaderMap, extra: &HeaderMap)
    requires
        has_room(*old(dst), header_contents(*extra).dom().len()),
    ensures
        header_contents(*final(dst)) == filled(header_contents(*old(dst)), header_contents(*extra)),
{
    let names: Vec<String> = header_names(extra);
    let mut lacking: Vec<String> = Vec::new();
    let ghost all = crate::text::views(names@);
    proof {
        all.unique_seq_to_set();
    }
    let mut i: usize = 0;
    while i < names.len()
        invariant
            i <= names@.len(),
            all == crate::text::views(names@),
            forall|j: int| 0 <= j < names@.len() ==> name_ok((#[trigger] names@[j])@),
            lacking@.len() <= i,
            forall|j: int| 0 <= j < lacking@.len() ==> name_ok((#[trigger] lacking@[j])@),
            crate::text::views(lacking@).to_set() == all.take(i as int).to_set().difference(
                header_contents(*dst).dom(),
            ),
        decreases names@.len() - i,
    {
        proof {
            assert(name_ok(names@[i as int]@));
            lemma_lower_name(names@[i as int]@);
        }
        let ghost before = lacking@;
        let ghost less = all.take(i as int);
        let ghost more = all.take(i + 1);
        proof {
            assert(more =~= less.push(names@[i as int]@));
            assert(more.to_set() =~= less.to_set().insert(names@[i as int]@));
        }
        if !has_header(dst, names[i].as_str()) {
            lacking.push(names[i].clone());
            proof {
                assert(crate::text::views(lacking@) =~= crate::text::views(before).push(
                    names@[i as int]@,
                ));
                assert(crate::text::views(lacking@).to_set() =~= crate::text::views(
                    before,
                ).to_set().insert(names@[i as int]@));
            }
        }
        assert(crate::text::views(lacking@).to_set() =~= more.to_set().difference(
            header_contents(*dst).dom(),
        ));
        i = i + 1;
    }
    proof {
        assert(all.take(all.len() as int) =~= all);
        let picked = crate::text::views(lacking@);
        assert forall|j: int| 0 <= j < lacking@.len() implies header_contents(*extra).contains_key(
            (#[trigger] lacking@[j])@,
        ) by {
            assert(picked[j] == lacking@[j]@);
            assert(picked.to_set().contains(picked[j]));
        }
    }
    overlay(dst, extra, &lacking);
}

/// Whether `more` names can be added to `map`.
pub fn room_for(map: &HeaderMap, more: usize) -> (r: bool)
    ensures
        r == has_room(*map, more as nat),
{
    let names: Vec<String> = header_names(map);
    proof {
        let all = crate::text::views(names@);
        all.unique_seq_to_set();
    }
    names.len() <= HEADER_ROOM && more <= HEADER_ROOM - names.len()
}

/// Whether `text` can stand in a header value.
pub fn is_header_text(text: &str) -> (r: bool)
    ensures
        r == text_ok(text@),
{
    for c in chars: text.chars()
        invariant
            chars.seq() == text@,
            forall|i: int| 0 <= i < chars.index() ==> text_char(#[trigger] text@[i]),
    {
        if !(c == '\t' || (c as u32 >= 32 && c as u32 != 127)) {
            assert(!text_char(text@[chars.index()]));
            return false;
        }
    }
    true
}

/// Filling in headers changes none that are there.
pub proof fn filling_keeps_own_headers(
    dst: Map<Seq<char>, Seq<Seq<u8>>>,
    extra: Map<Seq<char>, Seq<Seq<u8>>>,
    name: Seq<char>,
)
    ensures
        dst.contains_key(name) ==> filled(dst, extra).contains_key(name) && filled(dst, extra)[name]
            == dst[name],
        !dst.contains_key(name) && extra.contains_key(name) ==> filled(dst, extra).contains_key(
            name,
        ) && filled(dst, extra)[name] == seq![extra[name][0]],
{
}

/// Merging without headers to merge changes nothing.
pub proof fn merging_nothing_changes_nothing(dst: Map<Seq<char>, Seq<Seq<u8>>>)
    ensures
        merged(dst, no_headers()) == dst,
{
    assert(merged(dst, no_headers()) =~= dst);
}

/// A header that the library names in lower case stands under that name.
pub proof fn a_lower_case_name_is_its_own(contents: Map<Seq<char>, Seq<Seq<u8>>>, name: Seq<char>)
    requires
        forall|i: int| 0 <= i < name.len() ==> !('A' <= #[trigger] name[i] <= 'Z'),
    ensures
        lower(name) == name,
        contents.contains_key(name) ==> values_of(contents, name) == contents[name],
        !contents.contains_key(name) ==> values_of(contents, name).len() == 0,
{
    assert(lower(name) =~= name);
}

/// The characters are the same but for the case of a letter.
pub open spec fn same_letter(c: char, d: char) -> bool {
    ||| c == d
    ||| 'A' <= c <= 'Z' && d == ((c as u32) + 32) as char
    ||| 'A' <= d <= 'Z' && c == ((d as u32) + 32) as char
}

/// Header names are the same whatever the case of their letters: a letter in upper case and
/// the same letter in lower case find the same values, and nothing else does.
pub proof fn names_differ_in_more_than_case(a: Seq<char>, b: Seq<char>)
    ensures
        lower(lower(a)) == lower(a),
        lower(a).len() == a.len(),
        lower(a) == lower(b) <==> a.len() == b.len() && forall|i: int|
            0 <= i < a.len() ==> same_letter(#[trigger] a[i], b[i]),
{
    assert(lower(lower(a)) =~= lower(a));
    if lower(a) == lower(b) {
        assert forall|i: int| 0 <= i < a.len() implies same_letter(#[trigger] a[i], b[i]) by {
            assert(lower(a)[i] == lower(b)[i]);
        }
    }
    if a.len() == b.len() && forall|i: int|
        0 <= i < a.len() ==> same_letter(#[trigger] a[i], b[i]) {
        assert forall|i: int| 0 <= i < a.len() implies lower(a)[i] == lower(b)[i] by {
            assert(same_letter(a[i], b[i]));
        }
        assert(lower(a) =~= lower(b));
    }
}

/// A value reads as text, byte for character, exactly when every byte of it is visible ASCII,
/// a space or a tab.
pub proof fn a_text_value_reads_byte_for_character(value: Seq<u8>, text: Seq<char>)
    ensures
        value_text(value) == Some(text) <==> {
            &&& text.len() == value.len()
            &&& forall|i: int|
                0 <= i < value.len() ==> {
                    &&& #[trigger] value[i] == 9 || 32 <= value[i] <= 126
                    &&& text[i] == value[i] as char
                }
        },
        value_text(value) is None <==> exists|i: int|
            0 <= i < value.len() && #[trigger] value[i] != 9 && (value[i] < 32 || value[i] > 126),
{
    let read = value.map_values(|b: u8| b as char);
    if value_text(value) == Some(text) {
        assert forall|i: int| 0 <= i < value.len() implies {
            &&& #[trigger] value[i] == 9 || 32 <= value[i] <= 126
            &&& text[i] == value[i] as char
        } by {
            assert(visible(value[i]));
            assert(text[i] == value[i] as char);
        }
    }
    if text.len() == value.len() && forall|i: int|
        0 <= i < value.len() ==> {
            &&& #[trigger] value[i] == 9 || 32 <= value[i] <= 126
            &&& text[i] == value[i] as char
        } {
        assert forall|i: int| 0 <= i < value.len() implies read[i] == text[i] by {
            assert(text[i] == value[i] as char);
            assert(value[i] as char == text[i]);
        }
        assert(read =~= text);
    }
    if value_text(value) is None {
        let i = choose|i: int| 0 <= i < value.len() && !visible(#[trigger] value[i]);
        assert(value[i] != 9 && (value[i] < 32 || value[i] > 126));
    }
    if exists|i: int|
        0 <= i < value.len() && #[trigger] value[i] != 9 && (value[i] < 32 || value[i] > 126) {
        let i = choose|i: int|
            0 <= i < value.len() && #[trigger] value[i] != 9 && (value[i] < 32 || value[i] > 126);
        assert(!visible(value[i]));
    }
}

/// Merging takes every header that is to be merged, by its first value, and keeps the others;
/// filling takes those that are not there yet. Neither makes up a header.
pub proof fn merging_takes_what_filling_leaves(
    dst: Map<Seq<char>, Seq<Seq<u8>>>,
    extra: Map<Seq<char>, Seq<Seq<u8>>>,
    name: Seq<char>,
)
    ensures
        merged(dst, extra).contains_key(name) <==> dst.contains_key(name) || extra.contains_key(
            name,
        ),
        filled(dst, extra).contains_key(name) <==> dst.contains_key(name) || extra.contains_key(
            name,
        ),
        extra.contains_key(name) ==> merged(dst, extra)[name] == seq![extra[name][0]],
        dst.contains_key(name) && !extra.contains_key(name) ==> merged(dst, extra)[name]
            == dst[name],
{
}

/// Text can stand in a header unless it holds a control character other than the tab.
pub proof fn only_control_characters_are_refused(text: Seq<char>)
    ensures
        text_ok(text) <==> forall|i: int|
            0 <= i < text.len() ==> #[trigger] text[i] == '\t' || (text[i] as u32 >= 32
                && text[i] as u32 != 127),
{
    if text_ok(text) {
        assert forall|i: int| 0 <= i < text.len() implies #[trigger] text[i] == '\t' || (
        text[i] as u32 >= 32 && text[i] as u32 != 127) by {
            assert(text_char(text[i]));
        }
    }
}

}
