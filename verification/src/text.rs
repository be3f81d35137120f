//! Text helpers: numbers in decimal and hexadecimal, splitting and trimming.
use vstd::prelude::*;
use vstd::string::*;

verus! {

/// `String::push` appends the character.
pub assume_specification[ String::push ](s: &mut String, c: char)
    ensures
        final(s)@ == old(s)@.push(c),
;

/// The character of the digit `d`, below sixteen, in lower case.
pub open spec fn digit(d: nat) -> char {
    if d < 10 {
        ('0' as u32 + d) as char
    } else {
        ('a' as u32 + d - 10) as char
    }
}

/// `n` in decimal, without leading zeros.
pub open spec fn decimal(n: nat) -> Seq<char>
    decreases n,
{
    if n < 10 {
        seq![digit(n)]
    } else {
        decimal(n / 10).push(digit(n % 10))
    }
}

/// The last `width` hexadecimal digits of `n`.
pub open spec fn hexadecimal(n: nat, width: nat) -> Seq<char>
    decreases width,
{
    if width == 0 {
        Seq::empty()
    } else {
        hexadecimal(n / 16, (width - 1) as nat).push(digit(n % 16))
    }
}

fn digit_char(d: u8) -> (c: char)
    requires
        d < 16,
    ensures
        c == digit(d as nat),
{
    if d < 10 {
        (48u8 + d) as char
    } else {
        (87u8 + d) as char
    }
}

/// Append `n` in decimal.
pub fn push_decimal(buf: &mut String, n: u64)
    ensures
        final(buf)@ == old(buf)@ + decimal(n as nat),
    decreases n,
{
    if n >= 10 {
        push_decimal(buf, n / 10);
    }
    buf.push(digit_char((n % 10) as u8));
    assert(buf@ =~= old(buf)@ + decimal(n as nat));
}

/// Append the last `width` hexadecimal digits of `n`.
pub fn push_hexadecimal(buf: &mut String, n: u64, width: u8)
    ensures
        final(buf)@ == old(buf)@ + hexadecimal(n as nat, width as nat),
    decreases width,
{
    if width > 0 {
        push_hexadecimal(buf, n / 16, width - 1);
        buf.push(digit_char((n % 16) as u8));
    }
    assert(buf@ =~= old(buf)@ + hexadecimal(n as nat, width as nat));
}

/// The pieces of `s` between the occurrences of `sep`; there is always one piece more than
/// there are separators.
pub open spec fn pieces(s: Seq<char>, sep: char) -> Seq<Seq<char>>
    decreases s.len(),
{
    if s.len() == 0 {
        seq![Seq::empty()]
    } else {
        let front = pieces(s.drop_last(), sep);
        if s.last() == sep {
            front.push(Seq::empty())
        } else {
            front.drop_last().push(front.last().push(s.last()))
        }
    }
}

pub open spec fn views(v: Seq<String>) -> Seq<Seq<char>> {
    v.map_values(|s: String| s@)
}

/// Split `s` at every `sep`.
pub fn split(s: &str, sep: char) -> (parts: Vec<String>)
    ensures
        views(parts@) == pieces(s@, sep),
        parts@.len() > 0,
{
    let mut done: Vec<String> = Vec::new();
    let mut current: String = String::new();
    for c in chars: s.chars()
        invariant
            chars.seq() == s@,
            views(done@).push(current@) == pieces(s@.take(chars.index()), sep),
    {
        let ghost i = chars.index();
        let ghost before = views(done@).push(current@);
        proof {
            assert(s@.take(i + 1).drop_last() =~= s@.take(i));
            assert(s@.take(i + 1).last() == c);
        }
        if c == sep {
            done.push(current);
            current = String::new();
            assert(views(done@).push(current@) =~= before.push(Seq::empty()));
        } else {
            current.push(c);
            assert(views(done@).push(current@) =~= before.drop_last().push(before.last().push(c)));
        }
    }
    assert(s@.take(s@.len() as int) =~= s@);
    let ghost front = done@;
    done.push(current);
    assert(views(done@) =~= views(front).push(done@.last()@));
    done
}

/// The white space that header text can hold: space and tab.
pub open spec fn is_blank(c: char) -> bool {
    c == ' ' || c == '\t'
}

/// `s` without its leading blanks.
pub open spec fn trim_front(s: Seq<char>) -> Seq<char>
    decreases s.len(),
{
    if s.len() > 0 && is_blank(s[0]) {
        trim_front(s.drop_first())
    } else {
        s
    }
}

/// `s` without its trailing blanks.
pub open spec fn trim_back(s: Seq<char>) -> Seq<char>
    decreases s.len(),
{
    if s.len() > 0 && is_blank(s.last()) {
        trim_back(s.drop_last())
    } else {
        s
    }
}

/// `s` without the blanks at its two ends.
pub open spec fn trimmed(s: Seq<char>) -> Seq<char> {
    trim_back(trim_front(s))
}

/// The characters of `s`.
pub fn chars_of(s: &str) -> (v: Vec<char>)
    ensures
        v@ == s@,
{
    let mut v: Vec<char> = Vec::new();
    for c in chars: s.chars()
        invariant
            chars.seq() == s@,
            v@ == s@.take(chars.index()),
    {
        v.push(c);
        assert(v@ =~= s@.take(chars.index() + 1));
    }
    assert(s@.take(s@.len() as int) =~= s@);
    v
}

/// The text of `v[from..to]`.
pub fn text_between(v: &Vec<char>, from: usize, to: usize) -> (s: String)
    requires
        from <= to <= v@.len(),
    ensures
        s@ == v@.subrange(from as int, to as int),
{
    let mut s: String = String::new();
    let mut i: usize = from;
    while i < to
        invariant
            from <= i <= to <= v@.len(),
            s@ == v@.subrange(from as int, i as int),
        decreases to - i,
    {
        s.push(v[i]);
        i = i + 1;
        assert(s@ =~= v@.subrange(from as int, i as int));
    }
    s
}

/// Cut the blanks off both ends of `s`.
pub fn trim(s: &str) -> (t: String)
    ensures
        t@ == trimmed(s@),
{
    let v: Vec<char> = chars_of(s);
    let mut from: usize = 0;
    assert(v@.skip(0) =~= v@);
    while from < v.len() && (v[from] == ' ' || v[from] == '\t')
        invariant
            from <= v@.len(),
            trim_front(v@.skip(from as int)) == trim_front(v@),
        decreases v@.len() - from,
    {
        assert(v@.skip(from as int).drop_first() =~= v@.skip(from as int + 1));
        from = from + 1;
    }
    let ghost front = v@.skip(from as int);
    assert(trim_front(front) == front);
    let mut to: usize = v.len();
    assert(v@.subrange(from as int, to as int) =~= front);
    while to > from && (v[to - 1] == ' ' || v[to - 1] == '\t')
        invariant
            from <= to <= v@.len(),
            trim_back(v@.subrange(from as int, to as int)) == trim_back(front),
        decreases to,
    {
        assert(v@.subrange(from as int, to as int).drop_last() =~= v@.subrange(from as int, to - 1));
        to = to - 1;
    }
    text_between(&v, from, to)
}

/// Whether `sep` occurs in `s` for the first time at `i`.
pub open spec fn first_at(s: Seq<char>, sep: char, i: int) -> bool {
    &&& 0 <= i < s.len()
    &&& s[i] == sep
    &&& forall|j: int| 0 <= j < i ==> s[j] != sep
}

/// `s` before and after the first `sep`, if there is one.
pub open spec fn cut(s: Seq<char>, sep: char) -> Option<(Seq<char>, Seq<char>)> {
    if s.contains(sep) {
        let i = choose|i: int| first_at(s, sep, i);
        Some((s.take(i), s.skip(i + 1)))
    } else {
        None
    }
}

/// Split `s` at the first `sep`.
pub fn split_once(s: &str, sep: char) -> (r: Option<(String, String)>)
    ensures
        match r {
            Some((a, b)) => cut(s@, sep) == Some((a@, b@)),
            None => cut(s@, sep) is None,
        },
{
    let v: Vec<char> = chars_of(s);
    let mut i: usize = 0;
    while i < v.len()
        invariant
            v@ == s@,
            i <= v@.len(),
            forall|j: int| 0 <= j < i ==> s@[j] != sep,
        decreases v@.len() - i,
    {
        if v[i] == sep {
            let a = text_between(&v, 0, i);
            let b = text_between(&v, i + 1, v.len());
            proof {
                assert(first_at(s@, sep, i as int));
                assert(s@.contains(sep));
                let k = choose|k: int| first_at(s@, sep, k);
                assert(k == i);
                assert(a@ =~= s@.take(i as int));
                assert(b@ =~= s@.skip(i + 1));
            }
            return Some((a, b));
        }
        i = i + 1;
    }
    None
}

/// Whether two texts are the same.
pub fn same_text(a: &str, b: &str) -> (r: bool)
    ensures
        r == (a@ == b@),
{
    a.to_owned() == b.to_owned()
}

/// The number that a digit stands for, in lower case.
pub open spec fn digit_value(c: char) -> int {
    if '0' <= c <= '9' {
        c as u32 - '0' as u32
    } else {
        c as u32 - 'a' as u32 + 10
    }
}

/// The number that digits spell in the given base, the most significant first.
pub open spec fn number_of(digits: Seq<char>, base: int) -> int
    decreases digits.len(),
{
    if digits.len() == 0 {
        0
    } else {
        number_of(digits.drop_last(), base) * base + digit_value(digits.last())
    }
}

/// A number in decimal reads back as the number, has no other characters than digits, and
/// starts with a zero only where it is zero.
pub proof fn decimal_reads_back(n: nat)
    ensures
        number_of(decimal(n), 10) == n,
        decimal(n).len() > 0,
        forall|i: int| 0 <= i < decimal(n).len() ==> '0' <= #[trigger] decimal(n)[i] <= '9',
        decimal(n)[0] == '0' ==> n == 0 && decimal(n).len() == 1,
    decreases n,
{
    if n < 10 {
        assert(decimal(n).drop_last() =~= Seq::<char>::empty());
        assert(number_of(decimal(n).drop_last(), 10) == 0);
    } else {
        decimal_reads_back(n / 10);
        assert(decimal(n).drop_last() =~= decimal(n / 10));
        assert(decimal(n)[0] == decimal(n / 10)[0]);
    }
}

/// Two numbers that read the same in decimal are the same.
pub proof fn decimal_tells_numbers_apart(a: nat, b: nat)
    ensures
        decimal(a) == decimal(b) ==> a == b,
{
    decimal_reads_back(a);
    decimal_reads_back(b);
}

/// The last hexadecimal digits of a number, as many as asked for, spell what they can hold of
/// it.
pub proof fn hexadecimal_reads_back(n: nat, width: nat)
    ensures
        hexadecimal(n, width).len() == width,
        number_of(hexadecimal(n, width), 16) == n as int % vstd::arithmetic::power::pow(16, width),
    decreases width,
{
    let p = vstd::arithmetic::power::pow(16, width);
    vstd::arithmetic::power::lemma_pow_positive(16, width);
    if width == 0 {
        vstd::arithmetic::power::lemma_pow0(16);
    } else {
        let less = (width - 1) as nat;
        let q = vstd::arithmetic::power::pow(16, less);
        vstd::arithmetic::power::lemma_pow_positive(16, less);
        vstd::arithmetic::power::lemma_pow1(16);
        vstd::arithmetic::power::lemma_pow_adds(16, 1, less);
        assert(p == 16 * q);
        hexadecimal_reads_back(n / 16, less);
        assert(hexadecimal(n, width).drop_last() =~= hexadecimal(n / 16, less));
        assert(digit_value(digit(n % 16)) == n % 16);
        vstd::arithmetic::div_mod::lemma_breakdown(n as int, 16, q);
    }
}

/// The pieces of a text are those before a separator and those behind it.
pub proof fn pieces_of_joined_texts(a: Seq<char>, b: Seq<char>, sep: char)
    ensures
        pieces(a.push(sep) + b, sep) == pieces(a, sep) + pieces(b, sep),
        pieces(b, sep).len() > 0,
    decreases b.len(),
{
    let whole = a.push(sep) + b;
    if b.len() == 0 {
        assert(whole =~= a.push(sep));
        assert(whole.drop_last() =~= a);
        assert(pieces(whole, sep) =~= pieces(a, sep) + pieces(b, sep));
    } else {
        let less = b.drop_last();
        pieces_of_joined_texts(a, less, sep);
        assert(whole.drop_last() =~= a.push(sep) + less);
        assert(whole.last() == b.last());
        assert(pieces(whole, sep) =~= pieces(a, sep) + pieces(b, sep));
    }
}

/// A text without the separator is its own only piece.
pub proof fn a_text_without_separator_is_one_piece(s: Seq<char>, sep: char)
    requires
        !s.contains(sep),
    ensures
        pieces(s, sep) == seq![s],
    decreases s.len(),
{
    if s.len() > 0 {
        let front = s.drop_last();
        assert(!front.contains(sep)) by {
            if front.contains(sep) {
                let i = choose|i: int| 0 <= i < front.len() && front[i] == sep;
                assert(s[i] == sep);
            }
        }
        assert(s[s.len() - 1] != sep) by {
            if s[s.len() - 1] == sep {
                assert(s.contains(sep));
            }
        }
        a_text_without_separator_is_one_piece(front, sep);
        assert(pieces(s, sep) =~= seq![s]) by {
            assert(front.push(s.last()) =~= s);
        }
    } else {
        assert(s =~= Seq::empty());
    }
}

/// `e` stands between two separators of `s`, or between one and an end, or is all of it; `a`
/// is what comes before and `b` what comes behind.
pub open spec fn entry_between(
    s: Seq<char>,
    sep: char,
    a: Seq<char>,
    e: Seq<char>,
    b: Seq<char>,
) -> bool {
    &&& s == a + e + b
    &&& a.len() == 0 || a.last() == sep
    &&& b.len() == 0 || b[0] == sep
    &&& !e.contains(sep)
}

/// `e` is an entry of the list `s`.
pub open spec fn is_entry(s: Seq<char>, sep: char, e: Seq<char>) -> bool {
    exists|a: Seq<char>, b: Seq<char>| #[trigger] entry_between(s, sep, a, e, b)
}

/// The pieces before and behind an entry are those of the texts there.
pub proof fn lemma_entry_pieces(
    s: Seq<char>,
    sep: char,
    a: Seq<char>,
    e: Seq<char>,
    b: Seq<char>,
)
    requires
        entry_between(s, sep, a, e, b),
    ensures
        pieces(s, sep) == (if a.len() == 0 {
            Seq::empty()
        } else {
            pieces(a.drop_last(), sep)
        }) + seq![e] + (if b.len() == 0 {
            Seq::empty()
        } else {
            pieces(b.drop_first(), sep)
        }),
{
    a_text_without_separator_is_one_piece(e, sep);
    let eb = e + b;
    let tail = if b.len() == 0 {
        Seq::empty()
    } else {
        pieces(b.drop_first(), sep)
    };
    assert(pieces(eb, sep) == seq![e] + tail) by {
        if b.len() == 0 {
            assert(eb =~= e);
            assert(seq![e] + tail =~= seq![e]);
        } else {
            pieces_of_joined_texts(e, b.drop_first(), sep);
            assert(eb =~= e.push(sep) + b.drop_first());
        }
    }
    if a.len() == 0 {
        assert(s =~= eb);
        assert(pieces(s, sep) =~= Seq::<Seq<char>>::empty() + seq![e] + tail);
    } else {
        pieces_of_joined_texts(a.drop_last(), eb, sep);
        assert(s =~= a.drop_last().push(sep) + eb);
        assert(pieces(s, sep) =~= pieces(a.drop_last(), sep) + seq![e] + tail);
    }
}

/// Every piece of a text is an entry of it.
pub proof fn lemma_piece_is_entry(s: Seq<char>, sep: char, i: int)
    requires
        0 <= i < pieces(s, sep).len(),
    ensures
        is_entry(s, sep, pieces(s, sep)[i]),
    decreases s.len(),
{
    if !s.contains(sep) {
        a_text_without_separator_is_one_piece(s, sep);
        assert(s =~= Seq::<char>::empty() + s + Seq::<char>::empty());
        assert(entry_between(s, sep, Seq::empty(), s, Seq::empty()));
    } else {
        let at = lemma_last_at(s, sep);
        let a = s.take(at);
        let e = s.skip(at + 1);
        pieces_of_joined_texts(a, e, sep);
        assert(s =~= a.push(sep) + e);
        assert(!e.contains(sep)) by {
            if e.contains(sep) {
                let j = choose|j: int| 0 <= j < e.len() && e[j] == sep;
                assert(s[at + 1 + j] == sep);
            }
        }
        a_text_without_separator_is_one_piece(e, sep);
        if i < pieces(a, sep).len() {
            lemma_piece_is_entry(a, sep, i);
            let g = pieces(a, sep)[i];
            let (x, y) = choose|x: Seq<char>, y: Seq<char>| #[trigger]
                entry_between(a, sep, x, g, y);
            let tail = y + e.insert(0, sep);
            assert(s =~= x + g + tail);
            assert(tail[0] == sep);
            assert(entry_between(s, sep, x, g, tail));
        } else {
            assert(s =~= a.push(sep) + e + Seq::<char>::empty());
            assert(entry_between(s, sep, a.push(sep), e, Seq::empty()));
        }
    }
}

/// Where the last separator stands.
proof fn lemma_last_at(s: Seq<char>, sep: char) -> (at: int)
    requires
        s.contains(sep),
    ensures
        0 <= at < s.len(),
        s[at] == sep,
        forall|j: int| at < j < s.len() ==> s[j] != sep,
    decreases s.len(),
{
    if s.last() == sep {
        s.len() - 1
    } else {
        let i = choose|i: int| 0 <= i < s.len() && s[i] == sep;
        let front = s.drop_last();
        assert(front[i] == sep);
        let at = lemma_last_at(front, sep);
        assert forall|j: int| at < j < s.len() implies s[j] != sep by {
            if j < front.len() {
                assert(front[j] == s[j]);
            }
        }
        at
    }
}

/// Every character of `s` is a blank.
pub open spec fn blank(s: Seq<char>) -> bool {
    forall|i: int| 0 <= i < s.len() ==> is_blank(#[trigger] s[i])
}

/// `core` is what `s` holds between the blanks at its two ends.
pub open spec fn padded(s: Seq<char>, core: Seq<char>) -> bool {
    exists|l: Seq<char>, r: Seq<char>| #[trigger] padded_by(s, l, core, r)
}

/// `s` is `core` between the blanks `l` and `r`, and `core` has no blank at either end.
pub open spec fn padded_by(s: Seq<char>, l: Seq<char>, core: Seq<char>, r: Seq<char>) -> bool {
    &&& s == l + core + r
    &&& blank(l)
    &&& blank(r)
    &&& core.len() > 0 ==> !is_blank(core[0]) && !is_blank(core.last())
}

/// Trimming takes the blanks off both ends of a text and nothing else.
pub proof fn trimming_takes_the_blanks_off(s: Seq<char>)
    ensures
        padded(s, trimmed(s)),
{
    let front = trim_front(s);
    let core = trimmed(s);
    let l = lemma_trim_front(s);
    let r = lemma_trim_back(front);
    assert(s =~= l + core + r);
    if core.len() > 0 {
        assert(core[0] == front[0]);
    }
    assert(padded_by(s, l, core, r));
}

proof fn lemma_trim_front(s: Seq<char>) -> (l: Seq<char>)
    ensures
        s == l + trim_front(s),
        blank(l),
        trim_front(s).len() > 0 ==> !is_blank(trim_front(s)[0]),
    decreases s.len(),
{
    if s.len() > 0 && is_blank(s[0]) {
        let l = lemma_trim_front(s.drop_first());
        let more = seq![s[0]] + l;
        assert(trim_front(s) == trim_front(s.drop_first()));
        assert(s =~= seq![s[0]] + s.drop_first());
        assert(s =~= more + trim_front(s));
        assert forall|i: int| 0 <= i < more.len() implies is_blank(#[trigger] more[i]) by {
            if i > 0 {
                assert(more[i] == l[i - 1]);
            }
        }
        more
    } else {
        assert(s =~= Seq::<char>::empty() + s);
        Seq::empty()
    }
}

proof fn lemma_trim_back(s: Seq<char>) -> (r: Seq<char>)
    ensures
        s == trim_back(s) + r,
        blank(r),
        trim_back(s).len() > 0 ==> !is_blank(trim_back(s).last()),
    decreases s.len(),
{
    if s.len() > 0 && is_blank(s.last()) {
        let r = lemma_trim_back(s.drop_last());
        let more = r.push(s.last());
        assert(trim_back(s) == trim_back(s.drop_last()));
        assert(s =~= s.drop_last().push(s.last()));
        assert(s =~= trim_back(s) + more);
        more
    } else {
        assert(s =~= s + Seq::<char>::empty());
        Seq::empty()
    }
}

/// What a text holds between the blanks at its two ends is what trimming leaves of it.
pub proof fn trimming_finds_the_core(s: Seq<char>, core: Seq<char>)
    requires
        padded(s, core),
    ensures
        trimmed(s) == core,
{
    trimming_takes_the_blanks_off(s);
    let (l, r) = choose|l: Seq<char>, r: Seq<char>| #[trigger] padded_by(s, l, core, r);
    let t = trimmed(s);
    let (x, y) = choose|x: Seq<char>, y: Seq<char>| #[trigger] padded_by(s, x, t, y);
    if core.len() > 0 {
        assert(s[l.len() as int] == core[0]);
        assert(s[l.len() + core.len() - 1] == core.last());
    }
    if core.len() == 0 {
        if t.len() > 0 {
            let i = x.len() as int;
            assert(s[i] == t[0]);
            if i < l.len() {
                assert(s[i] == l[i]);
            } else {
                assert(s[i] == r[i - l.len()]);
            }
        }
        assert(t =~= core);
    } else if t.len() == 0 {
        let i = l.len() as int;
        if i < x.len() {
            assert(s[i] == x[i]);
        } else {
            assert(s[i] == y[i - x.len()]);
        }
    } else {
        assert(s[x.len() as int] == t[0]);
        assert(s[x.len() + t.len() - 1] == t.last());
        if l.len() < x.len() {
            assert(s[l.len() as int] == x[l.len() as int]);
        }
        if x.len() < l.len() {
            assert(s[x.len() as int] == l[x.len() as int]);
        }
        assert(l.len() == x.len());
        let e1 = l.len() + core.len();
        let e2 = x.len() + t.len();
        if e1 < e2 {
            assert(s[e2 - 1] == r[e2 - 1 - e1]);
        }
        if e2 < e1 {
            assert(s[e1 - 1] == y[e1 - 1 - e2]);
        }
        assert(t =~= core) by {
            assert forall|i: int| 0 <= i < core.len() implies t[i] == core[i] by {
                assert(s[l.len() + i] == core[i]);
                assert(s[x.len() + i] == t[i]);
            }
        }
    }
}

/// A text is cut at its first separator: what comes before has none, and with the separator
/// in between the two parts are the text again.
pub proof fn a_cut_text_joins_again(s: Seq<char>, sep: char, a: Seq<char>, b: Seq<char>)
    ensures
        cut(s, sep) == Some((a, b)) <==> (s == a.push(sep) + b && !a.contains(sep)),
        cut(s, sep) is None <==> !s.contains(sep),
{
    if s.contains(sep) {
        let k = lemma_first_at(s, sep);
        let i = choose|i: int| first_at(s, sep, i);
        assert(first_at(s, sep, i));
        let x = s.take(i);
        let y = s.skip(i + 1);
        assert(s =~= x.push(sep) + y);
        assert(!x.contains(sep)) by {
            if x.contains(sep) {
                let j = choose|j: int| 0 <= j < x.len() && x[j] == sep;
                assert(s[j] == sep);
            }
        }
        if s == a.push(sep) + b && !a.contains(sep) {
            assert(s[a.len() as int] == sep);
            if a.len() < i {
                assert(s[a.len() as int] != sep);
            }
            if i < a.len() {
                assert(s[i] == a[i]);
                assert(a.contains(sep));
            }
            assert(a =~= x);
            assert(b =~= y);
        }
    } else if s == a.push(sep) + b {
        assert(s[a.len() as int] == sep);
    }
}

proof fn lemma_first_at(s: Seq<char>, sep: char) -> (at: int)
    requires
        s.contains(sep),
    ensures
        first_at(s, sep, at),
    decreases s.len(),
{
    let i = choose|i: int| 0 <= i < s.len() && s[i] == sep;
    let front = s.take(i);
    if front.contains(sep) {
        let at = lemma_first_at(front, sep);
        assert(first_at(s, sep, at)) by {
            assert forall|j: int| 0 <= j < at implies s[j] != sep by {
                assert(front[j] == s[j]);
            }
        }
        at
    } else {
        assert forall|j: int| 0 <= j < i implies s[j] != sep by {
            if s[j] == sep {
                assert(front[j] == sep);
            }
        }
        i
    }
}

/// The blanks of header text are the space and the tab.
pub proof fn blanks_are_spaces_and_tabs(c: char)
    ensures
        is_blank(c) <==> c == ' ' || c == '\t',
{
}

/// An entry of a list is one of its pieces.
pub proof fn lemma_entry_is_piece(s: Seq<char>, sep: char, e: Seq<char>) -> (i: int)
    requires
        is_entry(s, sep, e),
    ensures
        0 <= i < pieces(s, sep).len(),
        pieces(s, sep)[i] == e,
{
    let (a, b) = choose|a: Seq<char>, b: Seq<char>| #[trigger] entry_between(s, sep, a, e, b);
    lemma_entry_pieces(s, sep, a, e, b);
    if a.len() == 0 {
        0
    } else {
        pieces(a.drop_last(), sep).len() as int
    }
}

/// Texts with the same pieces are the same.
pub proof fn pieces_tell_texts_apart(a: Seq<char>, b: Seq<char>, sep: char)
    ensures
        pieces(a, sep) == pieces(b, sep) ==> a == b,
    decreases a.len() + b.len(),
{
    if pieces(a, sep) == pieces(b, sep) {
        if !a.contains(sep) {
            a_text_without_separator_is_one_piece(a, sep);
            if b.contains(sep) {
                lemma_two_pieces(b, sep);
            } else {
                a_text_without_separator_is_one_piece(b, sep);
                assert(pieces(a, sep)[0] == pieces(b, sep)[0]);
            }
        } else if !b.contains(sep) {
            a_text_without_separator_is_one_piece(b, sep);
            lemma_two_pieces(a, sep);
        } else {
            let (i, j) = (lemma_last_at(a, sep), lemma_last_at(b, sep));
            let (x, y) = (a.take(i), b.take(j));
            let (e, f) = (a.skip(i + 1), b.skip(j + 1));
            assert(a =~= x.push(sep) + e);
            assert(b =~= y.push(sep) + f);
            pieces_of_joined_texts(x, e, sep);
            pieces_of_joined_texts(y, f, sep);
            lemma_tail_has_none(a, sep, i);
            lemma_tail_has_none(b, sep, j);
            a_text_without_separator_is_one_piece(e, sep);
            a_text_without_separator_is_one_piece(f, sep);
            let p = pieces(a, sep);
            assert(p.last() == e && p.last() == f);
            assert(p.drop_last() =~= pieces(x, sep));
            assert(p.drop_last() =~= pieces(y, sep));
            pieces_tell_texts_apart(x, y, sep);
        }
    }
}

proof fn lemma_two_pieces(s: Seq<char>, sep: char)
    requires
        s.contains(sep),
    ensures
        pieces(s, sep).len() >= 2,
{
    let at = lemma_last_at(s, sep);
    pieces_of_joined_texts(s.take(at), s.skip(at + 1), sep);
    pieces_of_joined_texts(s.take(at), s.take(at), sep);
    assert(s =~= s.take(at).push(sep) + s.skip(at + 1));
}

proof fn lemma_tail_has_none(s: Seq<char>, sep: char, at: int)
    requires
        0 <= at < s.len(),
        forall|j: int| at < j < s.len() ==> s[j] != sep,
    ensures
        !s.skip(at + 1).contains(sep),
{
    let e = s.skip(at + 1);
    if e.contains(sep) {
        let j = choose|j: int| 0 <= j < e.len() && e[j] == sep;
        assert(s[at + 1 + j] == sep);
    }
}

}
