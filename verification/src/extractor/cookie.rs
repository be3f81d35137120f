//! Cookie-value key extractor.
use vstd::prelude::*;

use super::{KeyExtractor, KeyOutcome};
use crate::error::{quoted, ExtractionError};
use crate::header_map::{all_values, to_str};
use crate::request::Parts;
use crate::text::{same_text, split, split_once, trim};

verus! {

/// Extracts a named cookie value as the rate-limit key.
///
/// Values are returned as-is (no URL-decoding); cookies are treated as opaque tokens.
#[derive(Clone, Copy, Debug)]
pub struct Cookie(pub &'static str);

/// The value in `pair`, if it is a pair for the cookie `name`.
pub open spec fn pair_value(pair: Seq<char>, name: Seq<char>) -> Option<Seq<char>> {
    match crate::text::cut(crate::text::trimmed(pair), '=') {
        Some((n, v)) => if crate::text::trimmed(n) == name {
            Some(crate::text::trimmed(v))
        } else {
            None
        },
        None => None,
    }
}

/// The value of the cookie `name` in the first of `pairs` that is for it.
pub open spec fn value_in_pairs(pairs: Seq<Seq<char>>, name: Seq<char>) -> Option<Seq<char>>
    decreases pairs.len(),
{
    if pairs.len() == 0 {
        None
    } else {
        match pair_value(pairs[0], name) {
            Some(v) => Some(v),
            None => value_in_pairs(pairs.drop_first(), name),
        }
    }
}

/// The value of the cookie `name` in one `Cookie` header; one that is not text has none.
pub open spec fn value_in_header(value: Seq<u8>, name: Seq<char>) -> Option<Seq<char>> {
    match crate::header_map::value_text(value) {
        Some(text) => value_in_pairs(crate::text::pieces(text, ';'), name),
        None => None,
    }
}

/// The value of the cookie `name` in the first of `values` that has it.
pub open spec fn cookie_value(values: Seq<Seq<u8>>, name: Seq<char>) -> Option<Seq<char>>
    decreases values.len(),
{
    if values.len() == 0 {
        None
    } else {
        match value_in_header(values[0], name) {
            Some(v) => Some(v),
            None => cookie_value(values.drop_first(), name),
        }
    }
}

fn find_in_pairs(pairs: &Vec<String>, name: &str) -> (r: Option<String>)
    ensures
        match r {
            Some(v) => value_in_pairs(crate::text::views(pairs@), name@) == Some(v@),
            None => value_in_pairs(crate::text::views(pairs@), name@) is None,
        },
{
    let ghost all = crate::text::views(pairs@);
    let mut i: usize = 0;
    assert(all.skip(0) =~= all);
    while i < pairs.len()
        invariant
            i <= pairs@.len(),
            all == crate::text::views(pairs@),
            value_in_pairs(all, name@) == value_in_pairs(all.skip(i as int), name@),
        decreases pairs@.len() - i,
    {
        proof {
            assert(all.skip(i as int)[0] == pairs@[i as int]@);
            assert(all.skip(i as int).drop_first() =~= all.skip(i + 1));
        }
        let pair = trim(pairs[i].as_str());
        if let Some((n, v)) = split_once(pair.as_str(), '=') {
            let found = trim(n.as_str());
            if same_text(found.as_str(), name) {
                return Some(trim(v.as_str()));
            }
        }
        i = i + 1;
    }
    None
}

fn find_in_values(values: &Vec<Vec<u8>>, name: &str) -> (r: Option<String>)
    ensures
        match r {
            Some(v) => cookie_value(byte_views(values@), name@) == Some(v@),
            None => cookie_value(byte_views(values@), name@) is None,
        },
{
    let ghost all = byte_views(values@);
    let mut i: usize = 0;
    assert(all.skip(0) =~= all);
    while i < values.len()
        invariant
            i <= values@.len(),
            all == byte_views(values@),
            cookie_value(all, name@) == cookie_value(all.skip(i as int), name@),
        decreases values@.len() - i,
    {
        proof {
            assert(all.skip(i as int)[0] == values@[i as int]@);
            assert(all.skip(i as int).drop_first() =~= all.skip(i + 1));
        }
        if let Some(text) = to_str(values[i].as_slice()) {
            let pairs: Vec<String> = split(text.as_str(), ';');
            if let Some(v) = find_in_pairs(&pairs, name) {
                return Some(v);
            }
        }
        i = i + 1;
    }
    None
}

/// The bytes of each of `values`.
pub open spec fn byte_views(values: Seq<Vec<u8>>) -> Seq<Seq<u8>> {
    values.map_values(|v: Vec<u8>| v@)
}

/// The message for a cookie that is not there.
pub open spec fn missing_cookie(name: Seq<char>) -> Seq<char> {
    "cookie '"@ + name + "' not found in request"@
}

impl KeyExtractor for Cookie {
    type Key = String;

    open spec fn yields(
        &self,
        parts: &Parts,
        r: Result<KeyOutcome<String>, ExtractionError>,
    ) -> bool {
        match cookie_value(
            crate::header_map::values_of(
                crate::header_map::header_contents(parts.headers),
                "cookie"@,
            ),
            self.0@,
        ) {
            Some(value) => r matches Ok(o) && o.key@ == value && o.quota_override is None,
            None => r matches Err(ExtractionError::Other(text)) && text@ == missing_cookie(self.0@),
        }
    }

    fn extract(&self, parts: &Parts) -> (r: Result<KeyOutcome<String>, ExtractionError>) {
        let values: Vec<Vec<u8>> = all_values(&parts.headers, "cookie");
        assert(byte_views(values@) =~= crate::header_map::values_of(
            crate::header_map::header_contents(parts.headers),
            "cookie"@,
        ));
        match find_in_values(&values, self.0) {
            Some(key) => Ok(KeyOutcome { key, quota_override: None }),
            None => Err(
                ExtractionError::Other(quoted("cookie '", self.0, "' not found in request")),
            ),
        }
    }

    fn requires_connect_info(&self) -> (r: bool)
        ensures
            !r,
    {
        false
    }
}

/// `entry` is a pair for the cookie `name` with this value: the name, an equals sign and the
/// value, with blanks around each of them.
pub open spec fn is_pair(entry: Seq<char>, name: Seq<char>, value: Seq<char>) -> bool {
    exists|n: Seq<char>, v: Seq<char>|
        {
            &&& !n.contains('=')
            &&& #[trigger] crate::text::padded(entry, n.push('=') + v)
            &&& crate::text::padded(n, name)
            &&& crate::text::padded(v, value)
        }
}

/// No entry of a text is a pair for the cookie `name`.
pub open spec fn no_pair_in(text: Seq<char>, name: Seq<char>) -> bool {
    forall|e: Seq<char>, value: Seq<char>|
        #![trigger crate::text::is_entry(text, ';', e), is_pair(e, name, value)]
        crate::text::is_entry(text, ';', e) ==> !is_pair(e, name, value)
}

/// No entry of a value is a pair for the cookie `name`; a value that is not text has none.
pub open spec fn value_has_no_pair(value: Seq<u8>, name: Seq<char>) -> bool {
    crate::header_map::value_text(value) matches Some(text) ==> no_pair_in(text, name)
}

proof fn lemma_pair(entry: Seq<char>, name: Seq<char>, value: Seq<char>)
    ensures
        pair_value(entry, name) == Some(value) <==> is_pair(entry, name, value),
{
    let core = crate::text::trimmed(entry);
    crate::text::trimming_takes_the_blanks_off(entry);
    if pair_value(entry, name) == Some(value) {
        let (n, v) = crate::text::cut(core, '=')->0;
        crate::text::a_cut_text_joins_again(core, '=', n, v);
        crate::text::trimming_takes_the_blanks_off(n);
        crate::text::trimming_takes_the_blanks_off(v);
        assert(crate::text::padded(entry, n.push('=') + v));
    }
    if is_pair(entry, name, value) {
        let (n, v) = choose|n: Seq<char>, v: Seq<char>|
            {
                &&& !n.contains('=')
                &&& #[trigger] crate::text::padded(entry, n.push('=') + v)
                &&& crate::text::padded(n, name)
                &&& crate::text::padded(v, value)
            };
        crate::text::trimming_finds_the_core(entry, n.push('=') + v);
        crate::text::a_cut_text_joins_again(core, '=', n, v);
        crate::text::trimming_finds_the_core(n, name);
        crate::text::trimming_finds_the_core(v, value);
    }
}

proof fn lemma_first_pair(
    pairs: Seq<Seq<char>>,
    k: int,
    name: Seq<char>,
    value: Seq<char>,
)
    requires
        0 <= k < pairs.len(),
        is_pair(pairs[k], name, value),
        forall|i: int| 0 <= i < k ==> pair_value(#[trigger] pairs[i], name) is None,
    ensures
        value_in_pairs(pairs, name) == Some(value),
    decreases pairs.len(),
{
    lemma_pair(pairs[k], name, value);
    if k > 0 {
        assert(pair_value(pairs[0], name) is None);
        let rest = pairs.drop_first();
        assert forall|i: int| 0 <= i < k - 1 implies pair_value(
            #[trigger] rest[i],
            name,
        ) is None by {
            assert(rest[i] == pairs[i + 1]);
        }
        lemma_first_pair(rest, k - 1, name, value);
    }
}

proof fn lemma_no_pairs(text: Seq<char>, name: Seq<char>)
    requires
        no_pair_in(text, name),
    ensures
        forall|i: int|
            0 <= i < crate::text::pieces(text, ';').len() ==> pair_value(
                #[trigger] crate::text::pieces(text, ';')[i],
                name,
            ) is None,
{
    let pairs = crate::text::pieces(text, ';');
    assert forall|i: int| 0 <= i < pairs.len() implies pair_value(
        #[trigger] pairs[i],
        name,
    ) is None by {
        crate::text::lemma_piece_is_entry(text, ';', i);
        if let Some(value) = pair_value(pairs[i], name) {
            lemma_pair(pairs[i], name, value);
            assert(crate::text::is_entry(text, ';', pairs[i]) && is_pair(pairs[i], name, value));
        }
    }
}

proof fn lemma_value_without_pair(value: Seq<u8>, name: Seq<char>)
    requires
        value_has_no_pair(value, name),
    ensures
        value_in_header(value, name) is None,
{
    if let Some(text) = crate::header_map::value_text(value) {
        lemma_no_pairs(text, name);
        lemma_none_in_pairs(crate::text::pieces(text, ';'), name);
    }
}

proof fn lemma_none_in_pairs(pairs: Seq<Seq<char>>, name: Seq<char>)
    requires
        forall|i: int| 0 <= i < pairs.len() ==> pair_value(#[trigger] pairs[i], name) is None,
    ensures
        value_in_pairs(pairs, name) is None,
    decreases pairs.len(),
{
    if pairs.len() > 0 {
        assert(pair_value(pairs[0], name) is None);
        let rest = pairs.drop_first();
        assert forall|i: int| 0 <= i < rest.len() implies pair_value(
            #[trigger] rest[i],
            name,
        ) is None by {
            assert(rest[i] == pairs[i + 1]);
        }
        lemma_none_in_pairs(rest, name);
    }
}

proof fn lemma_cookie_at(values: Seq<Seq<u8>>, n: int, name: Seq<char>)
    requires
        0 <= n < values.len(),
        value_in_header(values[n], name) is Some,
        forall|j: int| 0 <= j < n ==> value_has_no_pair(#[trigger] values[j], name),
    ensures
        cookie_value(values, name) == value_in_header(values[n], name),
    decreases values.len(),
{
    if n > 0 {
        assert(value_has_no_pair(values[0], name));
        lemma_value_without_pair(values[0], name);
        let rest = values.drop_first();
        assert(rest[n - 1] == values[n]);
        assert forall|j: int| 0 <= j < n - 1 implies value_has_no_pair(#[trigger] rest[j], name) by {
            assert(rest[j] == values[j + 1]);
        }
        lemma_cookie_at(rest, n - 1, name);
    }
}

proof fn lemma_no_cookie(values: Seq<Seq<u8>>, name: Seq<char>)
    requires
        forall|j: int| 0 <= j < values.len() ==> value_has_no_pair(#[trigger] values[j], name),
    ensures
        cookie_value(values, name) is None,
    decreases values.len(),
{
    if values.len() > 0 {
        assert(value_has_no_pair(values[0], name));
        lemma_value_without_pair(values[0], name);
        let rest = values.drop_first();
        assert forall|j: int| 0 <= j < rest.len() implies value_has_no_pair(
            #[trigger] rest[j],
            name,
        ) by {
            assert(rest[j] == values[j + 1]);
        }
        lemma_no_cookie(rest, name);
    }
}

proof fn lemma_cookie_name(contents: Map<Seq<char>, Seq<Seq<u8>>>)
    ensures
        contents.contains_key("cookie"@) ==> crate::header_map::values_of(contents, "cookie"@)
            == contents["cookie"@],
        !contents.contains_key("cookie"@) ==> crate::header_map::values_of(contents, "cookie"@).len()
            == 0,
{
    reveal_strlit("cookie");
    crate::header_map::a_lower_case_name_is_its_own(contents, "cookie"@);
}

/// The first pair for the cookie, in the first `Cookie` header that has one, is the key,
/// whatever follows it.
pub proof fn the_first_pair_is_the_key(
    c: Cookie,
    parts: Parts,
    r: Result<KeyOutcome<String>, ExtractionError>,
    n: int,
    a: Seq<char>,
    e: Seq<char>,
    b: Seq<char>,
    value: Seq<char>,
)
    requires
        c.yields(&parts, r),
        crate::header_map::header_contents(parts.headers).contains_key("cookie"@),
        0 <= n < crate::header_map::header_contents(parts.headers)["cookie"@].len(),
        crate::header_map::value_text(
            crate::header_map::header_contents(parts.headers)["cookie"@][n],
        ) == Some(a + e + b),
        crate::text::entry_between(a + e + b, ';', a, e, b),
        is_pair(e, c.0@, value),
        a.len() > 0 ==> no_pair_in(a.drop_last(), c.0@),
        forall|j: int|
            0 <= j < n ==> value_has_no_pair(
                #[trigger] crate::header_map::header_contents(parts.headers)["cookie"@][j],
                c.0@,
            ),
    ensures
        r matches Ok(o) && o.key@ == value && o.quota_override is None,
{
    let contents = crate::header_map::header_contents(parts.headers);
    lemma_cookie_name(contents);
    let values = contents["cookie"@];
    let text = a + e + b;
    crate::text::lemma_entry_pieces(text, ';', a, e, b);
    let pairs = crate::text::pieces(text, ';');
    let before = if a.len() == 0 {
        Seq::empty()
    } else {
        crate::text::pieces(a.drop_last(), ';')
    };
    let k = before.len() as int;
    assert(pairs[k] == e);
    if a.len() > 0 {
        lemma_no_pairs(a.drop_last(), c.0@);
    }
    assert forall|i: int| 0 <= i < k implies pair_value(#[trigger] pairs[i], c.0@) is None by {
        assert(pairs[i] == before[i]);
    }
    lemma_first_pair(pairs, k, c.0@, value);
    lemma_cookie_at(values, n, c.0@);
}

/// Without a pair for the cookie there is no key.
pub proof fn without_a_pair_there_is_no_key(
    c: Cookie,
    parts: Parts,
    r: Result<KeyOutcome<String>, ExtractionError>,
)
    requires
        c.yields(&parts, r),
        crate::header_map::header_contents(parts.headers).contains_key("cookie"@) ==> forall|j: int|
            0 <= j < crate::header_map::header_contents(parts.headers)["cookie"@].len()
                ==> value_has_no_pair(
                #[trigger] crate::header_map::header_contents(parts.headers)["cookie"@][j],
                c.0@,
            ),
    ensures
        r matches Err(ExtractionError::Other(_)),
{
    let contents = crate::header_map::header_contents(parts.headers);
    lemma_cookie_name(contents);
    lemma_no_cookie(crate::header_map::values_of(contents, "cookie"@), c.0@);
}

/// The message for a missing cookie names it, whole and in quotation marks.
pub proof fn the_message_names_the_cookie(name: Seq<char>) -> (around: (Seq<char>, Seq<char>))
    ensures
        missing_cookie(name) == around.0.push('\'') + name + around.1.insert(0, '\''),
{
    reveal_strlit("cookie '");
    reveal_strlit("' not found in request");
    let a = "cookie '"@.drop_last();
    let b = "' not found in request"@.drop_first();
    assert(a.push('\'') =~= "cookie '"@);
    assert(b.insert(0, '\'') =~= "' not found in request"@);
    (a, b)
}

}
