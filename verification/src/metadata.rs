//! What the program writes into the token metadata of the organization NFT and
//! of a contributor's score NFT: names, symbols and URIs.
use vstd::prelude::*;

verus! {

/// The character of a decimal digit.
pub open spec fn digit_char(d: nat) -> char {
    if d == 0 { '0' } else if d == 1 { '1' } else if d == 2 { '2' } else if d == 3 { '3' }
    else if d == 4 { '4' } else if d == 5 { '5' } else if d == 6 { '6' } else if d == 7 { '7' }
    else if d == 8 { '8' } else { '9' }
}

/// The decimal representation of `n`, without leading zeros.
pub open spec fn decimal(n: nat) -> Seq<char>
    decreases n,
{
    if n < 10 {
        seq![digit_char(n)]
    } else {
        decimal(n / 10).push(digit_char(n % 10))
    }
}

/// Each decimal digit is its own character: digit `d` has code `'0' + d`.
pub proof fn lemma_digit_char_code(d: nat)
    requires
        d < 10,
    ensures
        digit_char(d) as int == '0' as int + d,
{
}

/// The number a string of decimal digits reads as.
pub open spec fn digits_value(s: Seq<char>) -> int
    decreases s.len(),
{
    if s.len() == 0 {
        0
    } else {
        digits_value(s.drop_last()) * 10 + (s.last() as int - '0' as int)
    }
}

/// `decimal(n)` is the base-10 rendering of `n`: it consists of digits, reads as
/// `n`, and has no leading zero.
pub proof fn lemma_decimal_renders(n: nat)
    ensures
        decimal(n).len() > 0,
        forall|i: int| 0 <= i < decimal(n).len() ==> '0' <= #[trigger] decimal(n)[i] <= '9',
        digits_value(decimal(n)) == n,
        n > 0 ==> decimal(n)[0] != '0',
    decreases n,
{
    lemma_digit_char_code(n % 10);
    if n >= 10 {
        lemma_decimal_renders(n / 10);
        let s = decimal(n);
        assert(s.drop_last() =~= decimal(n / 10));
        assert((n / 10) * 10 + n % 10 == n) by (nonlinear_arith);
        assert forall|i: int| 0 <= i < s.len() implies '0' <= #[trigger] s[i] <= '9' by {
            if i < s.len() - 1 {
                assert(s[i] == decimal(n / 10)[i]);
            }
        }
        assert(s[0] == decimal(n / 10)[0]);
        assert(s.last() == digit_char(n % 10));
        assert(digits_value(s) == digits_value(s.drop_last()) * 10 + (s.last() as int - '0' as int));
        assert(digits_value(s) == (n / 10) * 10 + n % 10);
    } else {
        let s = decimal(n);
        assert(s.drop_last() =~= Seq::<char>::empty());
        assert(s.last() == digit_char(n));
        assert(digits_value(s) == digits_value(s.drop_last()) * 10 + (s.last() as int - '0' as int));
        assert(n % 10 == n);
    }
}

/// The levels in decimal, joined by `-` (empty for no levels).
pub open spec fn level_string(levels: Seq<u8>) -> Seq<char>
    decreases levels.len(),
{
    if levels.len() == 0 {
        Seq::empty()
    } else if levels.len() == 1 {
        decimal(levels[0] as nat)
    } else {
        level_string(levels.drop_last()) + seq!['-'] + decimal(levels.last() as nat)
    }
}

/// The URI of a score NFT at `levels`: `{domain}/{levels joined by -}.json`.
pub open spec fn score_uri(domain: Seq<char>, levels: Seq<u8>) -> Seq<char> {
    domain + seq!['/'] + level_string(levels) + seq!['.', 'j', 's', 'o', 'n']
}

/// The URI of an organization NFT: `{domain}/org.json`.
pub open spec fn org_uri(domain: Seq<char>) -> Seq<char> {
    domain + seq!['/', 'o', 'r', 'g', '.', 'j', 's', 'o', 'n']
}

/// The collection that a score NFT belongs to, and whether it is verified in it.
pub struct CollectionRef {
    pub verified: bool,
    pub key: [u8; 32],
}

/// A creator of a token, with its share of the seller fee.
pub struct Creator {
    pub address: [u8; 32],
    pub verified: bool,
    pub share: u8,
}

/// How a token may be used.
pub enum UseMethod {
    Burn,
    Multiple,
    Single,
}

/// The uses of a token.
pub struct Uses {
    pub use_method: UseMethod,
    pub remaining: u64,
    pub total: u64,
}

/// The data of a token's metadata: name, symbol, URI, seller fee, creators,
/// collection and uses.
pub struct TokenMetadata {
    pub name: String,
    pub symbol: String,
    pub uri: String,
    pub seller_fee_basis_points: u16,
    pub creators: Option<Vec<Creator>>,
    pub collection: Option<CollectionRef>,
    pub uses: Option<Uses>,
}

/// Creating a token's metadata: its data, whether it stays mutable, whether
/// the update authority signs, and the size of the collection it starts (if any).
pub struct MetadataCreation {
    pub data: TokenMetadata,
    pub is_mutable: bool,
    pub update_authority_is_signer: bool,
    pub collection_size: Option<u64>,
}

/// Rewriting a token's metadata: its new data, a new update authority (if any),
/// and the primary-sale and mutability flags to set (if any).
pub struct MetadataUpdate {
    pub data: TokenMetadata,
    pub new_update_authority: Option<[u8; 32]>,
    pub primary_sale_happened: Option<bool>,
    pub is_mutable: Option<bool>,
}

/// No seller fee, no creators, no uses.
pub open spec fn plain_terms(m: TokenMetadata) -> bool {
    &&& m.seller_fee_basis_points == 0
    &&& m.creators is None
    &&& m.uses is None
}

/// `m` is the metadata of a score NFT named `name`, at the URI of `levels`
/// under `domain`, in the collection `key` with the given verification, with no
/// seller fee, creators or uses.
pub open spec fn is_score_metadata(m: TokenMetadata, name: Seq<char>, domain: Seq<char>, levels: Seq<u8>, key: [u8; 32], verified: bool) -> bool {
    &&& m.name@ == name
    &&& m.symbol@ == "SCORE"@
    &&& m.uri@ == score_uri(domain, levels)
    &&& m.collection matches Some(c) && c.key == key && c.verified == verified
    &&& plain_terms(m)
}

/// `m` is the metadata of an organization NFT: `{name} Organization`, symbol
/// `GRWTH`, at `{domain}/org.json`, in no collection, with no seller fee,
/// creators or uses.
pub open spec fn is_org_metadata(m: TokenMetadata, name: Seq<char>, domain: Seq<char>) -> bool {
    &&& m.name@ == name + " Organization"@
    &&& m.symbol@ == "GRWTH"@
    &&& m.uri@ == org_uri(domain)
    &&& m.collection is None
    &&& plain_terms(m)
}

/// `u` rewrites a score NFT's metadata to `is_score_metadata(..)` with the
/// NFT verified in the collection `key`, keeps the update authority, and marks
/// the primary sale as happened and the metadata as mutable.
pub open spec fn is_score_update(u: MetadataUpdate, name: Seq<char>, domain: Seq<char>, levels: Seq<u8>, key: [u8; 32]) -> bool {
    &&& is_score_metadata(u.data, name, domain, levels, key, true)
    &&& u.new_update_authority is None
    &&& u.primary_sale_happened == Some(true)
    &&& u.is_mutable == Some(true)
}

/// Appends one decimal digit.
fn push_digit(s: &mut String, d: u8)
    requires
        d < 10,
    ensures
        final(s)@ == old(s)@.push(digit_char(d as nat)),
{
    proof {
        reveal_strlit("0");
        reveal_strlit("1");
        reveal_strlit("2");
        reveal_strlit("3");
        reveal_strlit("4");
        reveal_strlit("5");
        reveal_strlit("6");
        reveal_strlit("7");
        reveal_strlit("8");
        reveal_strlit("9");
    }
    let digit = if d == 0 { "0" } else if d == 1 { "1" } else if d == 2 { "2" } else if d == 3 { "3" }
        else if d == 4 { "4" } else if d == 5 { "5" } else if d == 6 { "6" } else if d == 7 { "7" }
        else if d == 8 { "8" } else { "9" };
    s.append(digit);
    assert(s@ =~= old(s)@.push(digit_char(d as nat)));
}

/// Appends the decimal representation of `n`.
pub fn push_decimal(s: &mut String, n: u8)
    ensures
        final(s)@ == old(s)@ + decimal(n as nat),
{
    if n >= 100 {
        push_digit(s, n / 100);
    }
    if n >= 10 {
        push_digit(s, (n / 10) % 10);
    }
    push_digit(s, n % 10);
    proof {
        let v = n as nat;
        if v >= 100 {
            assert(decimal(v / 100) == seq![digit_char(v / 100)]);
            assert(decimal(v / 10) == decimal((v / 10) / 10).push(digit_char((v / 10) % 10)));
            assert((v / 10) / 10 == v / 100);
        } else if v >= 10 {
            assert(decimal(v / 10) == seq![digit_char(v / 10)]);
            assert((v / 10) % 10 == v / 10);
        }
    }
    assert(s@ =~= old(s)@ + decimal(n as nat));
}

/// Appends the levels in decimal, joined by `-`.
pub fn push_level_string(s: &mut String, levels: &Vec<u8>)
    ensures
        final(s)@ == old(s)@ + level_string(levels@),
{
    let mut i: usize = 0;
    while i < levels.len()
        invariant
            i <= levels.len(),
            s@ == old(s)@ + level_string(levels@.subrange(0, i as int)),
        decreases levels.len() - i,
    {
        let ghost prefix = levels@.subrange(0, i as int);
        let ghost next = levels@.subrange(0, i + 1);
        assert(next.drop_last() =~= prefix);
        if i > 0 {
            s.append("-");
            proof { reveal_strlit("-"); }
        }
        push_decimal(s, levels[i]);
        proof {
            if i == 0 {
                assert(prefix =~= Seq::<u8>::empty());
                assert(level_string(next) == decimal(levels@[0] as nat));
            }
        }
        assert(s@ =~= old(s)@ + level_string(next));
        i = i + 1;
    }
    assert(levels@.subrange(0, levels.len() as int) =~= levels@);
}

/// The URI of a score NFT at `levels`: `{domain}/{levels joined by -}.json`.
pub fn score_uri_for(domain: &String, levels: &Vec<u8>) -> (uri: String)
    ensures
        uri@ == score_uri(domain@, levels@),
{
    let mut uri = domain.clone();
    uri.append("/");
    push_level_string(&mut uri, levels);
    uri.append(".json");
    proof {
        reveal_strlit("/");
        reveal_strlit(".json");
    }
    assert(uri@ =~= score_uri(domain@, levels@));
    uri
}

/// The URI of an organization NFT: `{domain}/org.json`.
pub fn org_uri_for(domain: &String) -> (uri: String)
    ensures
        uri@ == org_uri(domain@),
{
    let mut uri = domain.clone();
    uri.append("/org.json");
    proof {
        reveal_strlit("/org.json");
    }
    assert(uri@ =~= org_uri(domain@));
    uri
}

/// Metadata of an organization NFT: `{name} Organization`, symbol `GRWTH`,
/// `{domain}/org.json`, in no collection, no seller fee, creators or uses.
pub fn org_metadata(name: &String, domain: &String) -> (metadata: TokenMetadata)
    ensures
        is_org_metadata(metadata, name@, domain@),
{
    let mut full_name = name.clone();
    full_name.append(" Organization");
    TokenMetadata {
        name: full_name,
        symbol: String::from_str("GRWTH"),
        uri: org_uri_for(domain),
        seller_fee_basis_points: 0,
        creators: None,
        collection: None,
        uses: None,
    }
}

/// Metadata of a score NFT: the given name, symbol `SCORE`, the URI of
/// `levels`, in the collection `collection_key` with the given verification,
/// no seller fee, creators or uses.
pub fn score_metadata(name: String, domain: &String, levels: &Vec<u8>, collection_key: [u8; 32], verified: bool) -> (metadata: TokenMetadata)
    ensures
        is_score_metadata(metadata, name@, domain@, levels@, collection_key, verified),
{
    TokenMetadata {
        name,
        symbol: String::from_str("SCORE"),
        uri: score_uri_for(domain, levels),
        seller_fee_basis_points: 0,
        creators: None,
        collection: Some(CollectionRef { verified, key: collection_key }),
        uses: None,
    }
}

/// Rewrites a score NFT's metadata: `score_metadata` verified in the
/// collection, the update authority kept, the primary sale marked as happened
/// and the metadata as mutable.
pub fn score_update(name: String, domain: &String, levels: &Vec<u8>, collection_key: [u8; 32]) -> (update: MetadataUpdate)
    ensures
        is_score_update(update, name@, domain@, levels@, collection_key),
{
    MetadataUpdate {
        data: score_metadata(name, domain, levels, collection_key, true),
        new_update_authority: None,
        primary_sale_happened: Some(true),
        is_mutable: Some(true),
    }
}

} // verus!
