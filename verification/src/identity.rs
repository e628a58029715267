//! Who a character is, and the key its history is stored under.

use vstd::prelude::*;
use vstd::string::*;
use vstd::utf8::*;

use crate::text::{
    ascii_lower_text, decimal, digit_char, is_ascii_text, push_char, push_decimal, push_str,
};

verus! {

broadcast use vstd::utf8::group_utf8_lib;

/// `char::is_whitespace`: the Unicode `White_Space` property.
pub open spec fn is_white_space(c: char) -> bool {
    let u = c as u32;
    ||| 9 <= u <= 13
    ||| u == 32
    ||| u == 0x85
    ||| u == 0xA0
    ||| u == 0x1680
    ||| 0x2000 <= u <= 0x200A
    ||| u == 0x2028
    ||| u == 0x2029
    ||| u == 0x202F
    ||| u == 0x205F
    ||| u == 0x3000
}

/// Whether a character is Unicode white space.
pub fn white_space(c: char) -> (ws: bool)
    ensures
        ws == is_white_space(c),
{
    let u = c as u32;
    (9 <= u && u <= 13) || u == 32 || u == 0x85 || u == 0xA0 || u == 0x1680 || (0x2000 <= u && u
        <= 0x200A) || u == 0x2028 || u == 0x2029 || u == 0x202F || u == 0x205F || u == 0x3000
}

/// The first position at or after `i` that is not white space.
pub open spec fn skip_space(s: Seq<char>, i: int) -> int
    decreases s.len() - i,
{
    if i < 0 || i >= s.len() {
        s.len() as int
    } else if is_white_space(s[i]) {
        skip_space(s, i + 1)
    } else {
        i
    }
}

/// The end of `s[..j]` once trailing white space is dropped.
pub open spec fn trim_end_at(s: Seq<char>, j: int) -> int
    decreases j,
{
    if j <= 0 || j > s.len() {
        0
    } else if is_white_space(s[j - 1]) {
        trim_end_at(s, j - 1)
    } else {
        j
    }
}

/// `str::trim`: the text without leading and trailing white space.
pub open spec fn trim(s: Seq<char>) -> Seq<char> {
    let start = skip_space(s, 0);
    let end = trim_end_at(s, s.len() as int);
    if end <= start {
        Seq::empty()
    } else {
        s.subrange(start, end)
    }
}

/// The Unicode lowercase of a string, as `str::to_lowercase` computes it.
pub uninterp spec fn lowercase(text: Seq<char>) -> Seq<char>;

/// Lowercase a string.
///
/// Trusted: wraps `str::to_lowercase`, which maps each character through the
/// Unicode `Lowercase` mapping. The contract names the result, and states
/// the one case the standard library spells out: `char::to_ascii_lowercase`
/// maps only `A` to `Z` and points to `to_lowercase` for lowering ASCII
/// characters in addition to others, so ASCII text comes out with exactly its
/// capital letters lowered.
#[verifier::external_body]
fn to_lowercase(text: &str) -> (lower: String)
    ensures
        lower@ == lowercase(text@),
        is_ascii_text(text@) ==> lower@ == ascii_lower_text(text@),
{
    text.to_lowercase()
}

/// Trim white space from both ends.
pub fn trim_str(text: &str) -> (trimmed: String)
    ensures
        trimmed@ == trim(text@),
{
    let n = text.unicode_len();
    let mut start: usize = 0;
    while start < n && white_space(text.get_char(start))
        invariant
            n == text@.len(),
            0 <= start <= n,
            skip_space(text@, 0) == skip_space(text@, start as int),
        decreases n - start,
    {
        start = start + 1;
    }
    assert(skip_space(text@, start as int) == start);
    let mut end: usize = n;
    while end > start && white_space(text.get_char(end - 1))
        invariant
            n == text@.len(),
            0 <= start <= end <= n,
            start < n ==> !is_white_space(text@[start as int]),
            skip_space(text@, 0) == start,
            trim_end_at(text@, n as int) == trim_end_at(text@, end as int),
        decreases end,
    {
        end = end - 1;
    }
    proof {
        if end > start {
            assert(trim_end_at(text@, end as int) == end);
        } else {
            lemma_trim_end_le(text@, start as int);
        }
    }
    let mut trimmed = String::new();
    let mut i: usize = start;
    while i < end
        invariant
            n == text@.len(),
            start <= i <= end <= n,
            trimmed@ == text@.subrange(start as int, i as int),
        decreases end - i,
    {
        push_char(&mut trimmed, text.get_char(i));
        proof {
            assert(text@.subrange(start as int, i + 1) =~= text@.subrange(start as int, i as int).push(
                text@[i as int],
            ));
        }
        i = i + 1;
    }
    proof {
        if end <= start {
            assert(trimmed@ =~= Seq::<char>::empty());
        }
    }
    trimmed
}

proof fn lemma_trim_end_le(s: Seq<char>, j: int)
    ensures
        trim_end_at(s, j) <= if j < 0 { 0 } else { j },
    decreases j,
{
    if j > 0 && j <= s.len() && is_white_space(s[j - 1]) {
        lemma_trim_end_le(s, j - 1);
    }
}

/// Canonical form of an identity component: trimmed, then lowercased. ASCII
/// text is lowered letter by letter.
pub open spec fn normalized(value: Seq<char>) -> Seq<char> {
    let t = trim(value);
    if is_ascii_text(t) {
        ascii_lower_text(t)
    } else {
        lowercase(t)
    }
}

/// Trim Unicode white space and apply Unicode lowercase. Deliberately no
/// Unicode normalization or full case folding.
pub fn normalize(value: &str) -> (canonical: String)
    ensures
        canonical@ == normalized(value@),
{
    let trimmed = trim_str(value);
    to_lowercase(trimmed.as_str())
}

#[derive(Debug, Clone, PartialEq, Eq, Hash)]
pub enum GameFlavor {
    Anniversary,
    TbcClassic,
    ClassicEra,
    Retail,
    Other(String),
}

/// The flavor's part of a storage key. Custom flavors live in their own
/// namespace, so no custom name can collide with a built-in one.
pub open spec fn flavor_component(flavor: GameFlavor) -> Seq<char> {
    match flavor {
        GameFlavor::Anniversary => "builtin:anniversary"@,
        GameFlavor::TbcClassic => "builtin:tbc_classic"@,
        GameFlavor::ClassicEra => "builtin:classic_era"@,
        GameFlavor::Retail => "builtin:retail"@,
        GameFlavor::Other(value) => "custom:"@ + normalized(value@),
    }
}

impl GameFlavor {
    pub fn storage_key_component(&self) -> (component: String)
        ensures
            component@ == flavor_component(*self),
    {
        match self {
            GameFlavor::Anniversary => String::from_str("builtin:anniversary"),
            GameFlavor::TbcClassic => String::from_str("builtin:tbc_classic"),
            GameFlavor::ClassicEra => String::from_str("builtin:classic_era"),
            GameFlavor::Retail => String::from_str("builtin:retail"),
            GameFlavor::Other(value) => {
                let mut component = String::from_str("custom:");
                let canonical = normalize(value.as_str());
                push_str(&mut component, canonical.as_str());
                component
            },
        }
    }
}

#[derive(Debug, Clone, PartialEq, Eq, Hash)]
pub struct AccountIdentity {
    pub installation_id: String,
    pub account_id: String,
}

impl AccountIdentity {
    pub fn new(installation_id: &str, account_id: &str) -> (identity: Self)
        ensures
            identity.installation_id@ == normalized(installation_id@),
            identity.account_id@ == normalized(account_id@),
    {
        AccountIdentity {
            installation_id: normalize(installation_id),
            account_id: normalize(account_id),
        }
    }
}

#[derive(Debug, Clone, PartialEq, Eq, Hash)]
pub struct CharacterIdentity {
    pub account: AccountIdentity,
    pub game_flavor: GameFlavor,
    pub region: String,
    pub realm: String,
    pub character_name: String,
}

/// One length-prefixed field: the UTF-8 byte length, a colon, the text.
pub open spec fn key_field(part: Seq<char>) -> Seq<char> {
    decimal(encode_utf8(part).len()) + seq![':'] + part
}

/// Fields joined by `|`.
pub open spec fn joined(parts: Seq<Seq<char>>) -> Seq<char>
    decreases parts.len(),
{
    if parts.len() == 0 {
        Seq::empty()
    } else if parts.len() == 1 {
        key_field(parts[0])
    } else {
        key_field(parts[0]) + seq!['|'] + joined(parts.drop_first())
    }
}

/// What remains of `joined(parts)` once the first `i` fields are written.
pub open spec fn joined_tail(parts: Seq<Seq<char>>, i: int) -> Seq<char> {
    if i == 0 {
        joined(parts)
    } else if i < parts.len() {
        seq!['|'] + joined(parts.subrange(i, parts.len() as int))
    } else {
        Seq::empty()
    }
}

proof fn lemma_joined_tail_step(parts: Seq<Seq<char>>, i: int)
    requires
        0 <= i < parts.len(),
    ensures
        joined_tail(parts, i) == (if i > 0 {
            seq!['|']
        } else {
            Seq::empty()
        }) + key_field(parts[i]) + joined_tail(parts, i + 1),
{
    let rest = parts.subrange(i, parts.len() as int);
    assert(rest[0] == parts[i]);
    if i + 1 < parts.len() {
        assert(rest.drop_first() =~= parts.subrange(i + 1, parts.len() as int));
    }
    if i == 0 {
        assert(rest =~= parts);
        if parts.len() == 1 {
            assert(joined(parts) =~= key_field(parts[0]) + Seq::<char>::empty());
        } else {
            assert(parts.drop_first() =~= parts.subrange(1, parts.len() as int));
            assert(joined(parts) =~= key_field(parts[0]) + (seq!['|'] + joined(parts.drop_first())));
        }
    } else {
        if i + 1 < parts.len() {
            assert(joined(rest) == key_field(rest[0]) + seq!['|'] + joined(rest.drop_first()));
            assert(joined_tail(parts, i) =~= seq!['|'] + key_field(parts[i]) + (seq!['|'] + joined(
                parts.subrange(i + 1, parts.len() as int),
            )));
        } else {
            assert(rest.len() == 1);
            assert(joined(rest) == key_field(rest[0]));
            assert(joined_tail(parts, i) =~= seq!['|'] + key_field(parts[i]) + Seq::<char>::empty());
        }
    }
}

/// The six canonical components a storage key is built from.
pub open spec fn key_parts(identity: CharacterIdentity) -> Seq<Seq<char>> {
    seq![
        normalized(identity.account.installation_id@),
        normalized(identity.account.account_id@),
        flavor_component(identity.game_flavor),
        normalized(identity.region@),
        normalized(identity.realm@),
        normalized(identity.character_name@),
    ]
}

/// One field of a storage key.
fn key_field_string(part: &str) -> (field: String)
    ensures
        field@ == key_field(part@),
{
    let mut field = String::new();
    let bytes = part.as_bytes();
    push_decimal(&mut field, bytes.len() as u64);
    push_char(&mut field, ':');
    push_str(&mut field, part);
    proof {
        assert(field@ =~= key_field(part@));
    }
    field
}

impl CharacterIdentity {
    pub fn new(
        account: AccountIdentity,
        game_flavor: GameFlavor,
        region: &str,
        realm: &str,
        character_name: &str,
    ) -> (identity: Self)
        ensures
            identity.account == account,
            identity.game_flavor == game_flavor,
            identity.region@ == normalized(region@),
            identity.realm@ == normalized(realm@),
            identity.character_name@ == normalized(character_name@),
    {
        CharacterIdentity {
            account,
            game_flavor,
            region: normalize(region),
            realm: normalize(realm),
            character_name: normalize(character_name),
        }
    }

    /// A canonical, length-prefixed tuple key.
    ///
    /// Canonicalization happens here as well as in the constructors so values
    /// created by other means cannot produce alternate keys solely from case or
    /// surrounding whitespace. Custom game flavors use a separate namespace
    /// from built-in flavors.
    pub fn storage_key(&self) -> (key: String)
        ensures
            key@ == joined(key_parts(*self)),
    {
        let parts: [String; 6] = [
            normalize(self.account.installation_id.as_str()),
            normalize(self.account.account_id.as_str()),
            self.game_flavor.storage_key_component(),
            normalize(self.region.as_str()),
            normalize(self.realm.as_str()),
            normalize(self.character_name.as_str()),
        ];
        let ghost spec_parts = key_parts(*self);
        let mut key = String::new();
        let mut i: usize = 0;
        while i < 6
            invariant
                0 <= i <= 6,
                spec_parts == key_parts(*self),
                spec_parts.len() == 6,
                forall|j: int| 0 <= j < 6 ==> (#[trigger] parts@[j])@ == spec_parts[j],
                key@ + joined_tail(spec_parts, i as int) == joined(spec_parts),
            decreases 6 - i,
        {
            let part = &parts[i];
            let ghost before = key@;
            if i > 0 {
                push_char(&mut key, '|');
            }
            let field = key_field_string(part.as_str());
            push_str(&mut key, field.as_str());
            proof {
                lemma_joined_tail_step(spec_parts, i as int);
                if i > 0 {
                    assert(key@ =~= before + (seq!['|'] + key_field(spec_parts[i as int])));
                } else {
                    assert(key@ =~= before + key_field(spec_parts[i as int]));
                }
            }
            i = i + 1;
        }
        proof {
            assert(key@ =~= key@ + joined_tail(spec_parts, 6));
        }
        key
    }
}

/// Every character of a decimal spelling is an ASCII digit.
proof fn lemma_decimal_digits(n: nat)
    ensures
        decimal(n).len() >= 1,
        n < 10 <==> decimal(n).len() == 1,
        forall|i: int| 0 <= i < decimal(n).len() ==> 48 <= (#[trigger] decimal(n)[i]) as u32 <= 57,
    decreases n,
{
    if n >= 10 {
        lemma_decimal_digits(n / 10);
    }
}

proof fn lemma_digit_char(d: nat)
    requires
        d < 10,
    ensures
        digit_char(d) as u32 == d + 48,
{
    let b: u8 = (d + 48) as u8;
    assert(b == d + 48);
    assert(b as char as u32 == b as u32);
}

/// Distinct numbers are spelled differently.
proof fn lemma_decimal_injective(n: nat, m: nat)
    requires
        decimal(n) == decimal(m),
    ensures
        n == m,
    decreases n,
{
    lemma_decimal_digits(n);
    lemma_decimal_digits(m);
    if n >= 10 && m >= 10 {
        assert(decimal(n).drop_last() =~= decimal(n / 10));
        assert(decimal(m).drop_last() =~= decimal(m / 10));
        lemma_decimal_injective(n / 10, m / 10);
        assert(decimal(n).last() == digit_char(n % 10));
        assert(decimal(m).last() == digit_char(m % 10));
        lemma_digit_char((n % 10) as nat);
        lemma_digit_char((m % 10) as nat);
    } else if n < 10 && m < 10 {
        assert(decimal(n)[0] == digit_char(n));
        assert(decimal(m)[0] == digit_char(m));
        lemma_digit_char(n);
        lemma_digit_char(m);
    }
}

/// UTF-8 encoding distributes over concatenation.
proof fn lemma_encode_concat(a: Seq<char>, b: Seq<char>)
    ensures
        encode_utf8(a + b) == encode_utf8(a) + encode_utf8(b),
    decreases a.len(),
{
    if a.len() == 0 {
        assert(a + b =~= b);
        assert(encode_utf8(a) =~= Seq::<u8>::empty());
        assert(encode_utf8(a) + encode_utf8(b) =~= encode_utf8(b));
    } else {
        assert((a + b).drop_first() =~= a.drop_first() + b);
        assert((a + b)[0] == a[0]);
        lemma_encode_concat(a.drop_first(), b);
        assert(encode_utf8(a + b) =~= encode_scalar(a[0] as u32) + encode_utf8(a.drop_first() + b));
        assert(encode_utf8(a) + encode_utf8(b) =~= encode_scalar(a[0] as u32) + (encode_utf8(
            a.drop_first(),
        ) + encode_utf8(b)));
    }
}

/// Every character takes at least one byte.
proof fn lemma_encode_len(a: Seq<char>)
    ensures
        encode_utf8(a).len() >= a.len(),
    decreases a.len(),
{
    if a.len() > 0 {
        lemma_encode_len(a.drop_first());
    }
}

/// A length-prefixed field can be read back off the front of a key.
proof fn lemma_field_cancel(x: Seq<char>, y: Seq<char>, t1: Seq<char>, t2: Seq<char>)
    requires
        key_field(x) + t1 == key_field(y) + t2,
    ensures
        x == y,
        t1 == t2,
{
    let nx = encode_utf8(x).len();
    let ny = encode_utf8(y).len();
    let dx = decimal(nx);
    let dy = decimal(ny);
    let s = key_field(x) + t1;
    lemma_decimal_digits(nx);
    lemma_decimal_digits(ny);
    assert(s =~= dx + (seq![':'] + (x + t1)));
    assert(s =~= dy + (seq![':'] + (y + t2)));
    if dx.len() < dy.len() {
        assert(s[dx.len() as int] == ':');
        assert(s[dx.len() as int] == dy[dx.len() as int]);
        assert(false);
    } else if dy.len() < dx.len() {
        assert(s[dy.len() as int] == ':');
        assert(s[dy.len() as int] == dx[dy.len() as int]);
        assert(false);
    }
    assert(dx =~= s.subrange(0, dx.len() as int));
    assert(dy =~= s.subrange(0, dy.len() as int));
    lemma_decimal_injective(nx, ny);
    let rest = s.subrange(dx.len() as int + 1, s.len() as int);
    assert(rest =~= x + t1);
    assert(rest =~= y + t2);
    if x.len() <= y.len() {
        let w = y.subrange(x.len() as int, y.len() as int);
        assert(y.subrange(0, x.len() as int) =~= rest.subrange(0, x.len() as int));
        assert(x =~= rest.subrange(0, x.len() as int));
        assert(y =~= x + w);
        lemma_encode_concat(x, w);
        lemma_encode_len(w);
        assert(w.len() == 0);
        assert(y =~= x);
    } else {
        let w = x.subrange(y.len() as int, x.len() as int);
        assert(x.subrange(0, y.len() as int) =~= rest.subrange(0, y.len() as int));
        assert(y =~= rest.subrange(0, y.len() as int));
        assert(x =~= y + w);
        lemma_encode_concat(y, w);
        lemma_encode_len(w);
        assert(false);
    }
    assert(t1 =~= rest.subrange(x.len() as int, rest.len() as int));
    assert(t2 =~= rest.subrange(y.len() as int, rest.len() as int));
}

/// Joining length-prefixed fields loses nothing: equal keys come from equal
/// field lists.
proof fn lemma_joined_injective(p: Seq<Seq<char>>, q: Seq<Seq<char>>)
    requires
        p.len() == q.len(),
        joined(p) == joined(q),
    ensures
        p == q,
    decreases p.len(),
{
    if p.len() == 0 {
        assert(p =~= q);
    } else if p.len() == 1 {
        assert(key_field(p[0]) + Seq::<char>::empty() =~= key_field(p[0]));
        assert(key_field(q[0]) + Seq::<char>::empty() =~= key_field(q[0]));
        lemma_field_cancel(p[0], q[0], Seq::empty(), Seq::empty());
        assert(p =~= q);
    } else {
        let tp = seq!['|'] + joined(p.drop_first());
        let tq = seq!['|'] + joined(q.drop_first());
        assert(joined(p) =~= key_field(p[0]) + tp);
        assert(joined(q) =~= key_field(q[0]) + tq);
        lemma_field_cancel(p[0], q[0], tp, tq);
        assert(joined(p.drop_first()) =~= tp.drop_first());
        assert(joined(q.drop_first()) =~= tq.drop_first());
        lemma_joined_injective(p.drop_first(), q.drop_first());
        assert(p =~= seq![p[0]] + p.drop_first());
        assert(q =~= seq![q[0]] + q.drop_first());
    }
}

/// Storage keys do not collide: two identities get the same key only when
/// every canonical component agrees — installation, account, flavor, region,
/// realm and name, each trimmed and lowercased — however the components
/// themselves are spelled, separators included.
pub proof fn storage_keys_do_not_collide(a: CharacterIdentity, b: CharacterIdentity)
    requires
        joined(key_parts(a)) == joined(key_parts(b)),
    ensures
        normalized(a.account.installation_id@) == normalized(b.account.installation_id@),
        normalized(a.account.account_id@) == normalized(b.account.account_id@),
        flavor_component(a.game_flavor) == flavor_component(b.game_flavor),
        normalized(a.region@) == normalized(b.region@),
        normalized(a.realm@) == normalized(b.realm@),
        normalized(a.character_name@) == normalized(b.character_name@),
{
    lemma_joined_injective(key_parts(a), key_parts(b));
    assert(key_parts(a)[0] == key_parts(b)[0]);
    assert(key_parts(a)[1] == key_parts(b)[1]);
    assert(key_parts(a)[2] == key_parts(b)[2]);
    assert(key_parts(a)[3] == key_parts(b)[3]);
    assert(key_parts(a)[4] == key_parts(b)[4]);
    assert(key_parts(a)[5] == key_parts(b)[5]);
}

/// The first letter after `builtin:` in a built-in flavor's component.
spec fn builtin_letter(f: GameFlavor) -> char {
    match f {
        GameFlavor::Anniversary => 'a',
        GameFlavor::TbcClassic => 't',
        GameFlavor::ClassicEra => 'c',
        GameFlavor::Retail => 'r',
        GameFlavor::Other(_) => ' ',
    }
}

/// Custom flavors are namespaced: a custom flavor never shares a key
/// component with a built-in one, built-in flavors never share one with each
/// other, and two custom flavors share one only when their names agree after
/// trimming and lowercasing.
pub proof fn flavor_components_are_distinct(f: GameFlavor, g: GameFlavor)
    requires
        flavor_component(f) == flavor_component(g),
    ensures
        match (f, g) {
            (GameFlavor::Other(x), GameFlavor::Other(y)) => normalized(x@) == normalized(y@),
            (GameFlavor::Other(_), _) => false,
            (_, GameFlavor::Other(_)) => false,
            _ => f == g,
        },
{
    reveal_strlit("builtin:anniversary");
    reveal_strlit("builtin:tbc_classic");
    reveal_strlit("builtin:classic_era");
    reveal_strlit("builtin:retail");
    reveal_strlit("custom:");
    let cf = flavor_component(f);
    let cg = flavor_component(g);
    match (f, g) {
        (GameFlavor::Other(x), GameFlavor::Other(y)) => {
            assert(cf.subrange(7, cf.len() as int) =~= normalized(x@));
            assert(cg.subrange(7, cg.len() as int) =~= normalized(y@));
        },
        (GameFlavor::Other(_), _) => {
            assert(cf[0] == 'c');
            assert(cg[0] == 'b');
        },
        (_, GameFlavor::Other(_)) => {
            assert(cf[0] == 'b');
            assert(cg[0] == 'c');
        },
        _ => {
            assert(cf[8] == builtin_letter(f));
            assert(cg[8] == builtin_letter(g));
        },
    }
}

/// Two spellings of a component that, once trimmed, are ASCII and differ
/// only in the case of their letters.
pub open spec fn same_but_case_and_spacing(x: Seq<char>, y: Seq<char>) -> bool {
    &&& is_ascii_text(trim(x))
    &&& is_ascii_text(trim(y))
    &&& ascii_lower_text(trim(x)) == ascii_lower_text(trim(y))
}

/// Case and surrounding white space do not make a different character: two
/// identities whose components differ only in the case of their ASCII letters
/// and in the white space around them have one storage key.
pub proof fn case_and_spacing_do_not_change_the_key(a: CharacterIdentity, b: CharacterIdentity)
    requires
        same_but_case_and_spacing(a.account.installation_id@, b.account.installation_id@),
        same_but_case_and_spacing(a.account.account_id@, b.account.account_id@),
        match (a.game_flavor, b.game_flavor) {
            (GameFlavor::Other(x), GameFlavor::Other(y)) => same_but_case_and_spacing(x@, y@),
            (GameFlavor::Other(_), _) => false,
            (_, GameFlavor::Other(_)) => false,
            (f, g) => f == g,
        },
        same_but_case_and_spacing(a.region@, b.region@),
        same_but_case_and_spacing(a.realm@, b.realm@),
        same_but_case_and_spacing(a.character_name@, b.character_name@),
    ensures
        joined(key_parts(a)) == joined(key_parts(b)),
{
    assert(flavor_component(a.game_flavor) == flavor_component(b.game_flavor));
    assert(key_parts(a) =~= key_parts(b));
}

} // verus!
