use vstd::prelude::*;

verus! {

/// A token identifier: the chain's native currency under a denomination, or
/// a token issued by a contract at an address.
#[derive(Clone, Debug, PartialEq, Eq)]
pub enum TokenId {
    Native(String),
    Cw20(String),
}

/// The mathematical value of a `TokenId`.
pub enum TokenIdView {
    Native(Seq<char>),
    Cw20(Seq<char>),
}

impl View for TokenId {
    type V = TokenIdView;

    open spec fn view(&self) -> TokenIdView {
        match self {
            TokenId::Native(d) => TokenIdView::Native(d@),
            TokenId::Cw20(a) => TokenIdView::Cw20(a@),
        }
    }
}

/// Tag character of native denominations in encoded keys.
pub open spec fn native_tag() -> char {
    'n'
}

/// Tag character of contract tokens in encoded keys.
pub open spec fn cw20_tag() -> char {
    'c'
}

/// The key under which a token's totals are stored: a tag character
/// followed by the variant's payload.
pub open spec fn encode_token(t: TokenIdView) -> Seq<char> {
    match t {
        TokenIdView::Native(d) => seq![native_tag()] + d,
        TokenIdView::Cw20(a) => seq![cw20_tag()] + a,
    }
}

/// Reads an encoded key back; `None` where the first character is no tag.
pub open spec fn decode_token(s: Seq<char>) -> Option<TokenIdView> {
    if s.len() == 0 {
        None
    } else if s[0] == native_tag() {
        Some(TokenIdView::Native(s.subrange(1, s.len() as int)))
    } else if s[0] == cw20_tag() {
        Some(TokenIdView::Cw20(s.subrange(1, s.len() as int)))
    } else {
        None
    }
}

impl TokenId {
    pub fn duplicate(&self) -> (r: TokenId)
        ensures
            r@ == self@,
    {
        match self {
            TokenId::Native(d) => TokenId::Native(d.clone()),
            TokenId::Cw20(a) => TokenId::Cw20(a.clone()),
        }
    }
}

/// Encodes a token identifier as a key component.
pub fn denom_to_string(denom: &TokenId) -> (r: String)
    ensures
        r@ == encode_token(denom@),
{
    let (mut r, payload) = match denom {
        TokenId::Native(d) => (String::from_str("n"), d),
        TokenId::Cw20(a) => (String::from_str("c"), a),
    };
    proof {
        reveal_strlit("n");
        reveal_strlit("c");
    }
    r.append(payload.as_str());
    proof {
        match denom {
            TokenId::Native(d) => assert(r@ =~= encode_token(denom@)),
            TokenId::Cw20(a) => assert(r@ =~= encode_token(denom@)),
        }
    }
    r
}

/// Decodes a key component written by `denom_to_string`.
pub fn string_to_denom(s: String) -> (r: Option<TokenId>)
    ensures
        r matches Some(t) ==> decode_token(s@) == Some(t@),
        r is None ==> decode_token(s@) is None,
{
    let len = s.as_str().unicode_len();
    if len == 0 {
        return None;
    }
    let tag = s.as_str().get_char(0);
    let payload = String::from_str(s.as_str().substring_char(1, len));
    if tag == 'n' {
        Some(TokenId::Native(payload))
    } else if tag == 'c' {
        Some(TokenId::Cw20(payload))
    } else {
        None
    }
}

/// Decoding an encoded token identifier gives it back, and a key whose
/// first character is neither tag decodes to nothing.
pub proof fn lemma_codec_round_trip(t: TokenIdView, s: Seq<char>)
    ensures
        decode_token(encode_token(t)) == Some(t),
        s.len() == 0 || (s[0] != native_tag() && s[0] != cw20_tag()) ==> decode_token(s) is None,
{
    match t {
        TokenIdView::Native(d) => {
            assert((seq![native_tag()] + d).subrange(1, d.len() as int + 1) =~= d);
        },
        TokenIdView::Cw20(a) => {
            assert((seq![cw20_tag()] + a).subrange(1, a.len() as int + 1) =~= a);
        },
    }
}

/// Distinct token identifiers have distinct keys.
pub proof fn lemma_encode_injective(t: TokenIdView, u: TokenIdView)
    ensures
        encode_token(t) == encode_token(u) ==> t == u,
{
    lemma_codec_round_trip(t, Seq::empty());
    lemma_codec_round_trip(u, Seq::empty());
}

} // verus!
