use vstd::prelude::*;

use crate::text::{
    find_char, first_index, hex_text, hex_value, is_decimal, is_first, is_hex, dec_value,
    lemma_first_index, lemma_hex_text, parse_decimal_u64, parse_hex_u32, push_hex, starts_with,
};

verus! {

/// A key in secure storage: the effective user id that owns it and the caller's name for it.
#[derive(Debug, Clone, PartialEq, Eq, Hash, PartialOrd, Ord)]
pub struct Key {
    pub euid: u32,
    pub user_key: String,
}

impl View for Key {
    type V = (u32, Seq<char>);

    open spec fn view(&self) -> (u32, Seq<char>) {
        (self.euid, self.user_key@)
    }
}

/// Why a key text was refused.
#[derive(Debug, Clone, Copy, PartialEq, Eq, Structural)]
pub enum ParseKeyErr {
    /// The text is well formed up to its version, which is not one this grammar knows.
    UnsupportedVersion,
    /// The text breaks the grammar.
    InvalidSyntax,
}

/// The only key grammar version.
pub const KEY_VERSION: u64 = 1;

/// `v=1,euid=0x<HEX>/<user_key>`, with the euid in upper-case hexadecimal.
pub open spec fn render_key_text(euid: u32, user_key: Seq<char>) -> Seq<char> {
    seq!['v', '=', '1', ',', 'e', 'u', 'i', 'd', '=', '0', 'x'] + hex_text(euid as nat) + seq!['/']
        + user_key
}

/// What a key text denotes: the grammar `v=<decimal>,euid=0x<hex>/<user_key>`.
pub open spec fn parse_key_text(s: Seq<char>) -> Result<(u32, Seq<char>), ParseKeyErr> {
    if !(starts_with(s, seq!['v', '=']) && s.skip(2).contains(',')) {
        Err(ParseKeyErr::InvalidSyntax)
    } else {
        let body = s.skip(2);
        let comma = first_index(body, ',');
        parse_versioned(body.take(comma), body.skip(comma + 1))
    }
}

/// The part after `v=`, split at its first comma.
pub open spec fn parse_versioned(version: Seq<char>, rest: Seq<char>) -> Result<
    (u32, Seq<char>),
    ParseKeyErr,
> {
    if !(is_decimal(version) && dec_value(version) <= u64::MAX) {
        Err(ParseKeyErr::InvalidSyntax)
    } else if dec_value(version) != KEY_VERSION {
        Err(ParseKeyErr::UnsupportedVersion)
    } else if !(starts_with(rest, seq!['e', 'u', 'i', 'd', '=']) && rest.skip(5).contains('/')) {
        Err(ParseKeyErr::InvalidSyntax)
    } else {
        let tail = rest.skip(5);
        let slash = first_index(tail, '/');
        parse_euid(tail.take(slash), tail.skip(slash + 1))
    }
}

/// The euid field, which must be `0x` and hexadecimal digits that fit in 32 bits.
pub open spec fn parse_euid(euid: Seq<char>, user_key: Seq<char>) -> Result<
    (u32, Seq<char>),
    ParseKeyErr,
> {
    if starts_with(euid, seq!['0', 'x']) && is_hex(euid.skip(2)) && hex_value(euid.skip(2))
        <= u32::MAX {
        Ok((hex_value(euid.skip(2)) as u32, user_key))
    } else {
        Err(ParseKeyErr::InvalidSyntax)
    }
}

/// The view of a parse result.
pub open spec fn parsed_view(r: Result<Key, ParseKeyErr>) -> Result<(u32, Seq<char>), ParseKeyErr> {
    match r {
        Ok(k) => Ok(k@),
        Err(e) => Err(e),
    }
}

impl Key {
    /// Reads a key from its text form.
    pub fn parse(s: &str) -> (r: Result<Key, ParseKeyErr>)
        ensures
            parsed_view(r) == parse_key_text(s@),
    {
        let n = s.unicode_len();
        if n < 2 || s.get_char(0) != 'v' || s.get_char(1) != '=' {
            return Err(ParseKeyErr::InvalidSyntax);
        }
        assert(s@.take(2) =~= seq!['v', '=']);
        let body = s.substring_char(2, n);
        assert(body@ =~= s@.skip(2));
        let comma = match find_char(body, ',') {
            Some(i) => i,
            None => {
                return Err(ParseKeyErr::InvalidSyntax);
            },
        };
        proof {
            lemma_first_index(body@, ',', comma as int);
        }
        let body_len = body.unicode_len();
        let version = body.substring_char(0, comma);
        let rest = body.substring_char(comma + 1, body_len);
        assert(version@ =~= body@.take(comma as int));
        assert(rest@ =~= body@.skip(comma + 1));
        let v = match parse_decimal_u64(version) {
            Some(v) => v,
            None => {
                return Err(ParseKeyErr::InvalidSyntax);
            },
        };
        if v != KEY_VERSION {
            return Err(ParseKeyErr::UnsupportedVersion);
        }
        let rest_len = rest.unicode_len();
        if rest_len < 5 || rest.get_char(0) != 'e' || rest.get_char(1) != 'u' || rest.get_char(2)
            != 'i' || rest.get_char(3) != 'd' || rest.get_char(4) != '=' {
            proof {
                if starts_with(rest@, seq!['e', 'u', 'i', 'd', '=']) {
                    assert(rest@.take(5)[0] == 'e');
                    assert(rest@.take(5)[1] == 'u');
                    assert(rest@.take(5)[2] == 'i');
                    assert(rest@.take(5)[3] == 'd');
                    assert(rest@.take(5)[4] == '=');
                }
            }
            return Err(ParseKeyErr::InvalidSyntax);
        }
        assert(rest@.take(5) =~= seq!['e', 'u', 'i', 'd', '=']);
        let tail = rest.substring_char(5, rest_len);
        assert(tail@ =~= rest@.skip(5));
        let slash = match find_char(tail, '/') {
            Some(i) => i,
            None => {
                return Err(ParseKeyErr::InvalidSyntax);
            },
        };
        proof {
            lemma_first_index(tail@, '/', slash as int);
        }
        let tail_len = tail.unicode_len();
        let euid_text = tail.substring_char(0, slash);
        let user_key = tail.substring_char(slash + 1, tail_len);
        assert(euid_text@ =~= tail@.take(slash as int));
        assert(user_key@ =~= tail@.skip(slash + 1));
        let euid_len = euid_text.unicode_len();
        if euid_len < 2 || euid_text.get_char(0) != '0' || euid_text.get_char(1) != 'x' {
            proof {
                if starts_with(euid_text@, seq!['0', 'x']) {
                    assert(euid_text@.take(2)[0] == '0');
                    assert(euid_text@.take(2)[1] == 'x');
                }
            }
            return Err(ParseKeyErr::InvalidSyntax);
        }
        assert(euid_text@.take(2) =~= seq!['0', 'x']);
        let digits = euid_text.substring_char(2, euid_len);
        assert(digits@ =~= euid_text@.skip(2));
        match parse_hex_u32(digits) {
            Some(euid) => Ok(Key { euid, user_key: String::from_str(user_key) }),
            None => Err(ParseKeyErr::InvalidSyntax),
        }
    }

    /// The key's text form, `v=1,euid=0x<HEX>/<user_key>`.
    pub fn render(&self) -> (r: String)
        ensures
            r@ == render_key_text(self.euid, self.user_key@),
    {
        let mut out = String::from_str("v=1,euid=0x");
        proof {
            reveal_strlit("v=1,euid=0x");
        }
        push_hex(&mut out, self.euid);
        out.append("/");
        proof {
            reveal_strlit("/");
        }
        out.append(self.user_key.as_str());
        assert(out@ =~= render_key_text(self.euid, self.user_key@));
        out
    }
}

impl core::str::FromStr for Key {
    type Err = ParseKeyErr;

    fn from_str(s: &str) -> (r: Result<Key, ParseKeyErr>)
        ensures
            parsed_view(r) == parse_key_text(s@),
    {
        Key::parse(s)
    }
}

/// A key text assembled from its three fields: `v=<version>,euid=<euid>/<user_key>`.
pub open spec fn key_text(version: Seq<char>, euid: Seq<char>, user_key: Seq<char>) -> Seq<char> {
    seq!['v', '='] + version + seq![','] + seq!['e', 'u', 'i', 'd', '='] + euid + seq!['/']
        + user_key
}

/// A key text whose version field holds no comma splits there.
pub proof fn lemma_version_field(version: Seq<char>, rest: Seq<char>)
    requires
        !version.contains(','),
    ensures
        parse_key_text(seq!['v', '='] + version + seq![','] + rest) == parse_versioned(
            version,
            rest,
        ),
{
    let s = seq!['v', '='] + version + seq![','] + rest;
    assert(s.take(2) =~= seq!['v', '=']);
    let body = s.skip(2);
    assert(body =~= version + seq![','] + rest);
    let k = version.len() as int;
    assert forall|j: int| 0 <= j < k implies body[j] != ',' by {
        assert(body[j] == version[j]);
    }
    assert(is_first(body, ',', k));
    lemma_first_index(body, ',', k);
    assert(body.take(k) =~= version);
    assert(body.skip(k + 1) =~= rest);
}

/// After a supported version, an euid field that holds no slash is what decides.
pub proof fn lemma_euid_field(euid: Seq<char>, user_key: Seq<char>)
    requires
        !euid.contains('/'),
    ensures
        parse_versioned(seq!['1'], seq!['e', 'u', 'i', 'd', '='] + euid + seq!['/'] + user_key)
            == parse_euid(euid, user_key),
{
    let version = seq!['1'];
    assert(version.drop_last() =~= Seq::<char>::empty());
    assert(version.last() == '1');
    assert(dec_value(Seq::<char>::empty()) == 0);
    assert(dec_value(version) == dec_value(version.drop_last()) * 10 + (version.last() as nat
        - '0' as nat) as nat);
    assert(dec_value(version) == 1);
    let rest = seq!['e', 'u', 'i', 'd', '='] + euid + seq!['/'] + user_key;
    assert(rest.take(5) =~= seq!['e', 'u', 'i', 'd', '=']);
    let tail = rest.skip(5);
    assert(tail =~= euid + seq!['/'] + user_key);
    let k = euid.len() as int;
    assert forall|j: int| 0 <= j < k implies tail[j] != '/' by {
        assert(tail[j] == euid[j]);
    }
    assert(is_first(tail, '/', k));
    lemma_first_index(tail, '/', k);
    assert(tail.take(k) =~= euid);
    assert(tail.skip(k + 1) =~= user_key);
}

/// Rendering a key and parsing the text gives the key back.
pub proof fn lemma_round_trip(euid: u32, user_key: Seq<char>)
    ensures
        parse_key_text(render_key_text(euid, user_key)) == Ok::<(u32, Seq<char>), ParseKeyErr>(
            (euid, user_key),
        ),
{
    let h = hex_text(euid as nat);
    lemma_hex_text(euid as nat);
    let field = seq!['0', 'x'] + h;
    assert(render_key_text(euid, user_key) =~= key_text(seq!['1'], field, user_key));
    assert(!seq!['1'].contains(',')) by {
        assert(seq!['1'][0] != ',');
    }
    assert forall|j: int| 0 <= j < field.len() implies field[j] != '/' by {
        if j >= 2 {
            assert(field[j] == h[j - 2]);
        }
    }
    lemma_version_field(
        seq!['1'],
        seq!['e', 'u', 'i', 'd', '='] + field + seq!['/'] + user_key,
    );
    assert(key_text(seq!['1'], field, user_key) =~= seq!['v', '='] + seq!['1'] + seq![','] + (
    seq!['e', 'u', 'i', 'd', '='] + field + seq!['/'] + user_key));
    lemma_euid_field(field, user_key);
    assert(field.take(2) =~= seq!['0', 'x']);
    assert(field.skip(2) =~= h);
}

/// With a supported version, an euid field that does not start with a lower-case `0x`
/// (a bare decimal, bare hexadecimal, or `0X`) is a syntax error.
pub proof fn lemma_euid_needs_hex_prefix(euid: Seq<char>, user_key: Seq<char>)
    requires
        !euid.contains('/'),
        !starts_with(euid, seq!['0', 'x']),
    ensures
        parse_key_text(key_text(seq!['1'], euid, user_key)) == Err::<(u32, Seq<char>), ParseKeyErr>(
            ParseKeyErr::InvalidSyntax,
        ),
{
    assert(!seq!['1'].contains(',')) by {
        assert(seq!['1'][0] != ',');
    }
    let rest = seq!['e', 'u', 'i', 'd', '='] + euid + seq!['/'] + user_key;
    assert(key_text(seq!['1'], euid, user_key) =~= seq!['v', '='] + seq!['1'] + seq![','] + rest);
    lemma_version_field(seq!['1'], rest);
    lemma_euid_field(euid, user_key);
}

/// The version field is read as a plain decimal: one that is not a decimal numeral
/// (hexadecimal, `0x`-prefixed, empty) is a syntax error, and a decimal other than one
/// is an unsupported version, whatever follows.
pub proof fn lemma_version_strictness(version: Seq<char>, rest: Seq<char>)
    requires
        !version.contains(','),
    ensures
        !is_decimal(version) ==> parse_key_text(seq!['v', '='] + version + seq![','] + rest)
            == Err::<(u32, Seq<char>), ParseKeyErr>(ParseKeyErr::InvalidSyntax),
        is_decimal(version) && dec_value(version) != 1 && dec_value(version) <= u64::MAX
            ==> parse_key_text(seq!['v', '='] + version + seq![','] + rest) == Err::<
            (u32, Seq<char>),
            ParseKeyErr,
        >(ParseKeyErr::UnsupportedVersion),
{
    lemma_version_field(version, rest);
}

/// Lexicographic order on character strings (a proper prefix comes first).
pub open spec fn chars_lt(a: Seq<char>, b: Seq<char>) -> bool
    decreases a.len(),
{
    if a.len() == 0 {
        b.len() > 0
    } else if b.len() == 0 {
        false
    } else if a[0] != b[0] {
        a[0] < b[0]
    } else {
        chars_lt(a.drop_first(), b.drop_first())
    }
}

/// Key order: by euid, then by user key.
pub open spec fn key_lt(a: (u32, Seq<char>), b: (u32, Seq<char>)) -> bool {
    a.0 < b.0 || (a.0 == b.0 && chars_lt(a.1, b.1))
}

pub proof fn lemma_chars_lt_irreflexive(a: Seq<char>)
    ensures
        !chars_lt(a, a),
    decreases a.len(),
{
    if a.len() > 0 {
        lemma_chars_lt_irreflexive(a.drop_first());
    }
}

pub proof fn lemma_chars_lt_transitive(a: Seq<char>, b: Seq<char>, c: Seq<char>)
    requires
        chars_lt(a, b),
        chars_lt(b, c),
    ensures
        chars_lt(a, c),
    decreases a.len(),
{
    if a.len() > 0 && b.len() > 0 && c.len() > 0 && a[0] == b[0] && b[0] == c[0] {
        lemma_chars_lt_transitive(a.drop_first(), b.drop_first(), c.drop_first());
    }
}

pub proof fn lemma_chars_lt_total(a: Seq<char>, b: Seq<char>)
    requires
        a != b,
    ensures
        chars_lt(a, b) || chars_lt(b, a),
    decreases a.len(),
{
    if a.len() > 0 && b.len() > 0 && a[0] == b[0] {
        if a.drop_first() == b.drop_first() {
            assert(a =~= seq![a[0]] + a.drop_first());
            assert(b =~= seq![b[0]] + b.drop_first());
        }
        lemma_chars_lt_total(a.drop_first(), b.drop_first());
    } else if a.len() == 0 && b.len() == 0 {
        assert(a =~= b);
    }
}

/// Strings that agree on their first `i` characters compare as what follows does.
pub proof fn lemma_chars_lt_common_prefix(a: Seq<char>, b: Seq<char>, i: int)
    requires
        0 <= i <= a.len(),
        i <= b.len(),
        a.take(i) =~= b.take(i),
    ensures
        chars_lt(a, b) == chars_lt(a.skip(i), b.skip(i)),
    decreases i,
{
    if i == 0 {
        assert(a.skip(0) =~= a);
        assert(b.skip(0) =~= b);
    } else {
        assert(a[0] == a.take(i)[0]);
        assert(b[0] == b.take(i)[0]);
        assert(a.drop_first().take(i - 1) =~= b.drop_first().take(i - 1)) by {
            assert forall|j: int| 0 <= j < i - 1 implies a.drop_first()[j] == b.drop_first()[j] by {
                assert(a.take(i)[j + 1] == b.take(i)[j + 1]);
            }
        }
        lemma_chars_lt_common_prefix(a.drop_first(), b.drop_first(), i - 1);
        assert(a.drop_first().skip(i - 1) =~= a.skip(i));
        assert(b.drop_first().skip(i - 1) =~= b.skip(i));
    }
}

pub proof fn lemma_key_lt_irreflexive(a: (u32, Seq<char>))
    ensures
        !key_lt(a, a),
{
    lemma_chars_lt_irreflexive(a.1);
}

pub proof fn lemma_key_lt_transitive(a: (u32, Seq<char>), b: (u32, Seq<char>), c: (u32, Seq<char>))
    requires
        key_lt(a, b),
        key_lt(b, c),
    ensures
        key_lt(a, c),
{
    if a.0 == b.0 && b.0 == c.0 {
        lemma_chars_lt_transitive(a.1, b.1, c.1);
    }
}

pub proof fn lemma_key_lt_total(a: (u32, Seq<char>), b: (u32, Seq<char>))
    requires
        a != b,
    ensures
        key_lt(a, b) || key_lt(b, a),
{
    if a.0 == b.0 {
        lemma_chars_lt_total(a.1, b.1);
    }
}

/// Compares two strings character by character: negative, zero or positive as `a` comes
/// before, equals, or comes after `b`.
pub fn compare_chars(a: &str, b: &str) -> (r: i8)
    ensures
        r < 0 <==> chars_lt(a@, b@),
        r == 0 <==> a@ == b@,
        r > 0 <==> chars_lt(b@, a@),
{
    let na = a.unicode_len();
    let nb = b.unicode_len();
    let mut i: usize = 0;
    while i < na && i < nb && a.get_char(i) == b.get_char(i)
        invariant
            na == a@.len(),
            nb == b@.len(),
            i <= na,
            i <= nb,
            a@.take(i as int) =~= b@.take(i as int),
        decreases na - i,
    {
        assert(a@.take(i + 1) =~= a@.take(i as int).push(a@[i as int]));
        assert(b@.take(i + 1) =~= b@.take(i as int).push(b@[i as int]));
        i = i + 1;
    }
    proof {
        lemma_chars_lt_common_prefix(a@, b@, i as int);
        lemma_chars_lt_common_prefix(b@, a@, i as int);
    }
    if i < na && i < nb {
        let ca = a.get_char(i);
        let cb = b.get_char(i);
        assert(a@.skip(i as int)[0] == ca);
        assert(b@.skip(i as int)[0] == cb);
        if ca < cb {
            -1
        } else {
            1
        }
    } else if i < nb {
        assert(a@.skip(i as int).len() == 0);
        -1
    } else if i < na {
        assert(b@.skip(i as int).len() == 0);
        1
    } else {
        assert(a@ =~= a@.take(i as int));
        assert(b@ =~= b@.take(i as int));
        proof {
            lemma_chars_lt_irreflexive(a@);
        }
        0
    }
}

impl Key {
    /// Compares two keys by euid, then by user key: negative, zero or positive as `self`
    /// comes before, equals, or comes after `other`.
    pub fn compare(&self, other: &Key) -> (r: i8)
        ensures
            r < 0 <==> key_lt(self@, other@),
            r == 0 <==> self@ == other@,
            r > 0 <==> key_lt(other@, self@),
    {
        if self.euid < other.euid {
            -1
        } else if self.euid > other.euid {
            1
        } else {
            compare_chars(self.user_key.as_str(), other.user_key.as_str())
        }
    }
}

} // verus!
