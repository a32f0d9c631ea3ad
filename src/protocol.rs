//! Payloads of the settings service: requests, responses and events, and
//! their encodings.
use crate::codec::{
    decode_string, decode_u32, decode_varint, encode_string, encode_varint, lemma_string_at,
    lemma_u32_at, lemma_varint_at, parse_string_at, parse_u32_at, parse_varint_at, string_field,
    varint, CodecError,
};
use crate::json::{json_accepts, JsonValue};
use crate::store::{SettingInfo, SettingView};
use vstd::prelude::*;

verus! {

/// The encoding of a setting: its name, then the text of its value.
pub open spec fn setting_field(s: SettingView) -> Seq<u8> {
    string_field(s.name) + string_field(s.value)
}

/// Reading a setting at `pos`; its value must be JSON.
pub open spec fn parse_setting_at(s: Seq<u8>, pos: nat) -> Result<(SettingView, nat), CodecError> {
    match parse_string_at(s, pos) {
        Err(e) => Err(e),
        Ok((name, p)) => match parse_string_at(s, p) {
            Err(e) => Err(e),
            Ok((value, q)) => if json_accepts(value) {
                Ok((SettingView { name, value }, q))
            } else {
                Err(CodecError::InvalidJson)
            },
        },
    }
}

/// The encodings of `s`, one after the other.
pub open spec fn settings_concat(s: Seq<SettingView>) -> Seq<u8>
    decreases s.len(),
{
    if s.len() == 0 {
        seq![]
    } else {
        settings_concat(s.drop_last()) + setting_field(s.last())
    }
}

/// The encoding of a list of settings: its length, then each setting.
pub open spec fn settings_field(s: Seq<SettingView>) -> Seq<u8> {
    varint(s.len() as u64) + settings_concat(s)
}

/// The encodings of `s`, one after the other.
pub open spec fn strings_concat(s: Seq<Seq<char>>) -> Seq<u8>
    decreases s.len(),
{
    if s.len() == 0 {
        seq![]
    } else {
        strings_concat(s.drop_last()) + string_field(s.last())
    }
}

/// The encoding of a list of strings: its length, then each string.
pub open spec fn strings_field(s: Seq<Seq<char>>) -> Seq<u8> {
    varint(s.len() as u64) + strings_concat(s)
}

/// Reading `n` settings one after the other from `pos` on.
pub open spec fn parse_settings_n(s: Seq<u8>, pos: nat, n: nat) -> Result<
    (Seq<SettingView>, nat),
    CodecError,
>
    decreases n,
{
    if n == 0 {
        Ok((seq![], pos))
    } else {
        match parse_settings_n(s, pos, (n - 1) as nat) {
            Err(e) => Err(e),
            Ok((v, p)) => match parse_setting_at(s, p) {
                Err(e) => Err(e),
                Ok((x, q)) => Ok((v.push(x), q)),
            },
        }
    }
}

/// Reading `n` strings one after the other from `pos` on.
pub open spec fn parse_strings_n(s: Seq<u8>, pos: nat, n: nat) -> Result<
    (Seq<Seq<char>>, nat),
    CodecError,
>
    decreases n,
{
    if n == 0 {
        Ok((seq![], pos))
    } else {
        match parse_strings_n(s, pos, (n - 1) as nat) {
            Err(e) => Err(e),
            Ok((v, p)) => match parse_string_at(s, p) {
                Err(e) => Err(e),
                Ok((x, q)) => Ok((v.push(x), q)),
            },
        }
    }
}

/// Reading a list of settings at `pos`.
pub open spec fn parse_settings_at(s: Seq<u8>, pos: nat) -> Result<
    (Seq<SettingView>, nat),
    CodecError,
> {
    match parse_varint_at(s, pos) {
        Err(e) => Err(e),
        Ok((n, p)) => parse_settings_n(s, p, n as nat),
    }
}

/// Reading a list of strings at `pos`.
pub open spec fn parse_strings_at(s: Seq<u8>, pos: nat) -> Result<
    (Seq<Seq<char>>, nat),
    CodecError,
> {
    match parse_varint_at(s, pos) {
        Err(e) => Err(e),
        Ok((n, p)) => parse_strings_n(s, p, n as nat),
    }
}

/// Whether every string of a setting fits a length field.
pub open spec fn setting_fits(s: SettingView) -> bool {
    &&& vstd::utf8::encode_utf8(s.name).len() <= u64::MAX
    &&& vstd::utf8::encode_utf8(s.value).len() <= u64::MAX
}

/// Whether every setting of `v` fits and holds JSON.
pub open spec fn settings_fit(v: Seq<SettingView>) -> bool {
    forall|i: int| 0 <= i < v.len() ==> json_accepts(#[trigger] v[i].value) && setting_fits(v[i])
}

/// A setting is read back from its encoding.
pub proof fn lemma_setting_at(pre: Seq<u8>, v: SettingView, rest: Seq<u8>)
    requires
        json_accepts(v.value),
        setting_fits(v),
    ensures
        parse_setting_at(pre + setting_field(v) + rest, pre.len()) == Ok::<
            (SettingView, nat),
            CodecError,
        >((v, pre.len() + setting_field(v).len())),
{
    let a = string_field(v.name);
    let b = string_field(v.value);
    let s = pre + setting_field(v) + rest;
    assert(s =~= pre + a + (b + rest));
    lemma_string_at(pre, v.name, b + rest);
    assert(s =~= (pre + a) + b + rest);
    lemma_string_at(pre + a, v.value, rest);
}

/// A list of settings is read back from its encoding.
pub proof fn lemma_settings_n(pre: Seq<u8>, v: Seq<SettingView>, rest: Seq<u8>)
    requires
        settings_fit(v),
    ensures
        parse_settings_n(pre + settings_concat(v) + rest, pre.len(), v.len()) == Ok::<
            (Seq<SettingView>, nat),
            CodecError,
        >((v, pre.len() + settings_concat(v).len())),
    decreases v.len(),
{
    if v.len() > 0 {
        let init = v.drop_last();
        let x = v.last();
        let s = pre + settings_concat(v) + rest;
        assert(s =~= pre + settings_concat(init) + (setting_field(x) + rest));
        assert(settings_fit(init)) by {
            assert forall|i: int| 0 <= i < init.len() implies json_accepts(#[trigger] init[i].value)
                && setting_fits(init[i]) by {
                assert(init[i] == v[i]);
            }
        }
        lemma_settings_n(pre, init, setting_field(x) + rest);
        assert(json_accepts(v[v.len() - 1].value) && setting_fits(v[v.len() - 1]));
        assert(s =~= (pre + settings_concat(init)) + setting_field(x) + rest);
        lemma_setting_at(pre + settings_concat(init), x, rest);
        assert(init.push(x) =~= v);
        let p0 = pre.len() + settings_concat(init).len();
        assert((v.len() - 1) as nat == init.len());
        assert(parse_settings_n(s, pre.len(), init.len()) == Ok::<(Seq<SettingView>, nat), CodecError>((init, p0)));
        assert(parse_setting_at(s, p0) == Ok::<(SettingView, nat), CodecError>((x, p0 + setting_field(x).len())));
        assert(settings_concat(v).len() == settings_concat(init).len() + setting_field(x).len());
    } else {
        assert(v =~= seq![]);
        assert(pre + settings_concat(v) + rest =~= pre + rest);
    }
}

/// A list of strings is read back from its encoding.
pub proof fn lemma_strings_n(pre: Seq<u8>, v: Seq<Seq<char>>, rest: Seq<u8>)
    requires
        forall|i: int| 0 <= i < v.len() ==> vstd::utf8::encode_utf8(#[trigger] v[i]).len() <= u64::MAX,
    ensures
        parse_strings_n(pre + strings_concat(v) + rest, pre.len(), v.len()) == Ok::<
            (Seq<Seq<char>>, nat),
            CodecError,
        >((v, pre.len() + strings_concat(v).len())),
    decreases v.len(),
{
    if v.len() > 0 {
        let init = v.drop_last();
        let x = v.last();
        let s = pre + strings_concat(v) + rest;
        assert(s =~= pre + strings_concat(init) + (string_field(x) + rest));
        assert forall|i: int| 0 <= i < init.len() implies vstd::utf8::encode_utf8(#[trigger] init[i]).len() <= u64::MAX by {
            assert(init[i] == v[i]);
        }
        lemma_strings_n(pre, init, string_field(x) + rest);
        assert(vstd::utf8::encode_utf8(v[v.len() - 1]).len() <= u64::MAX);
        assert(s =~= (pre + strings_concat(init)) + string_field(x) + rest);
        lemma_string_at(pre + strings_concat(init), x, rest);
        assert(init.push(x) =~= v);
        let p0 = pre.len() + strings_concat(init).len();
        assert((v.len() - 1) as nat == init.len());
        assert(parse_strings_n(s, pre.len(), init.len()) == Ok::<(Seq<Seq<char>>, nat), CodecError>((init, p0)));
        assert(parse_string_at(s, p0) == Ok::<(Seq<char>, nat), CodecError>((x, p0 + string_field(x).len())));
        assert(strings_concat(v).len() == strings_concat(init).len() + string_field(x).len());
    } else {
        assert(v =~= seq![]);
        assert(pre + strings_concat(v) + rest =~= pre + rest);
    }
}

/// Appends the encoding of a setting to `out`.
pub fn encode_setting(s: &SettingInfo, out: &mut Vec<u8>)
    ensures
        final(out)@ == old(out)@ + setting_field(s@),
        json_accepts(s@.value),
{
    encode_string(s.name.as_str(), out);
    encode_string(s.value.as_str(), out);
    proof {
        assert(final(out)@ =~= old(out)@ + setting_field(s@));
    }
}

/// Reads a setting at `pos`.
pub fn decode_setting(bytes: &[u8], pos: usize) -> (r: Result<(SettingInfo, usize), CodecError>)
    requires
        pos <= bytes@.len(),
    ensures
        match parse_setting_at(bytes@, pos as nat) {
            Ok((v, p)) => r matches Ok((x, q)) && x@ == v && q == p && q <= bytes@.len(),
            Err(e) => r matches Err(f) && f == e,
        },
{
    let (name, p) = match decode_string(bytes, pos) {
        Ok(x) => x,
        Err(e) => return Err(e),
    };
    proof {
        lemma_parse_string_end(bytes@, pos as nat);
    }
    let (text, q) = match decode_string(bytes, p) {
        Ok(x) => x,
        Err(e) => return Err(e),
    };
    proof {
        lemma_parse_string_end(bytes@, p as nat);
    }
    match JsonValue::parse(text) {
        Some(value) => Ok((SettingInfo { name, value }, q)),
        None => Err(CodecError::InvalidJson),
    }
}

/// A string read at `pos` ends within the input.
pub proof fn lemma_parse_string_end(s: Seq<u8>, pos: nat)
    requires
        pos <= s.len(),
    ensures
        parse_string_at(s, pos) matches Ok((_, p)) ==> pos < p <= s.len(),
{
}

/// Appends the encoding of a list of settings to `out`.
pub fn encode_settings(v: &Vec<SettingInfo>, out: &mut Vec<u8>)
    ensures
        final(out)@ == old(out)@ + settings_field(v@.map_values(|e: SettingInfo| e@)),
{
    let ghost all = v@.map_values(|e: SettingInfo| e@);
    encode_varint(v.len() as u64, out);
    let ghost mid = out@;
    let n = v.len();
    let mut i: usize = 0;
    while i < n
        invariant
            n == v@.len(),
            i <= n,
            all == v@.map_values(|e: SettingInfo| e@),
            out@ == mid + settings_concat(all.subrange(0, i as int)),
        decreases n - i,
    {
        encode_setting(&v[i], out);
        proof {
            assert(all.subrange(0, i + 1).drop_last() =~= all.subrange(0, i as int));
            assert(out@ =~= mid + settings_concat(all.subrange(0, i + 1)));
        }
        i = i + 1;
    }
    proof {
        assert(all.subrange(0, n as int) =~= all);
        assert(out@ =~= old(out)@ + settings_field(all));
    }
}

/// Appends the encoding of a list of strings to `out`.
pub fn encode_strings(v: &Vec<String>, out: &mut Vec<u8>)
    ensures
        final(out)@ == old(out)@ + strings_field(v@.map_values(|e: String| e@)),
{
    let ghost all = v@.map_values(|e: String| e@);
    encode_varint(v.len() as u64, out);
    let ghost mid = out@;
    let n = v.len();
    let mut i: usize = 0;
    while i < n
        invariant
            n == v@.len(),
            i <= n,
            all == v@.map_values(|e: String| e@),
            out@ == mid + strings_concat(all.subrange(0, i as int)),
        decreases n - i,
    {
        encode_string(v[i].as_str(), out);
        proof {
            assert(all.subrange(0, i + 1).drop_last() =~= all.subrange(0, i as int));
            assert(out@ =~= mid + strings_concat(all.subrange(0, i + 1)));
        }
        i = i + 1;
    }
    proof {
        assert(all.subrange(0, n as int) =~= all);
        assert(out@ =~= old(out)@ + strings_field(all));
    }
}

/// Reads a list of settings at `pos`.
pub fn decode_settings(bytes: &[u8], pos: usize) -> (r: Result<(Vec<SettingInfo>, usize), CodecError>)
    requires
        pos <= bytes@.len(),
    ensures
        match parse_settings_at(bytes@, pos as nat) {
            Ok((v, p)) => r matches Ok((x, q)) && x@.map_values(|e: SettingInfo| e@) == v && q == p
                && q <= bytes@.len(),
            Err(e) => r matches Err(f) && f == e,
        },
{
    let (n, start) = match decode_varint(bytes, pos) {
        Ok(x) => x,
        Err(e) => return Err(e),
    };
    let mut out: Vec<SettingInfo> = Vec::new();
    let mut p = start;
    proof {
        assert(parse_varint_at(bytes@, pos as nat) == Ok::<(u64, nat), CodecError>((n, start as nat)));
        assert(out@.map_values(|e: SettingInfo| e@) =~= seq![]);
    }
    let mut i: u64 = 0;
    while i < n
        invariant
            i <= n,
            p <= bytes@.len(),
            parse_varint_at(bytes@, pos as nat) == Ok::<(u64, nat), CodecError>((n, start as nat)),
            parse_settings_n(bytes@, start as nat, i as nat) == Ok::<
                (Seq<SettingView>, nat),
                CodecError,
            >((out@.map_values(|e: SettingInfo| e@), p as nat)),
        decreases n - i,
    {
        match decode_setting(bytes, p) {
            Ok((x, q)) => {
                proof {
                    let ghost before = out@;
                    assert(before.push(x).map_values(|e: SettingInfo| e@) =~= before.map_values(
                        |e: SettingInfo| e@,
                    ).push(x@));
                }
                out.push(x);
                p = q;
            },
            Err(e) => {
                proof {
                    assert(parse_settings_n(bytes@, start as nat, (i + 1) as nat) == Err::<
                        (Seq<SettingView>, nat),
                        CodecError,
                    >(e));
                    lemma_settings_n_err(bytes@, start as nat, (i + 1) as nat, n as nat);
                }
                return Err(e);
            },
        }
        i = i + 1;
    }
    proof {
        assert(parse_varint_at(bytes@, pos as nat) == Ok::<(u64, nat), CodecError>((n, start as nat)));
    }
    Ok((out, p))
}

/// Once reading a list fails, reading a longer list fails the same way.
proof fn lemma_settings_n_err(s: Seq<u8>, pos: nat, k: nat, m: nat)
    requires
        k <= m,
        parse_settings_n(s, pos, k) is Err,
    ensures
        parse_settings_n(s, pos, m) == parse_settings_n(s, pos, k),
    decreases m - k,
{
    if k < m {
        lemma_settings_n_err(s, pos, k, (m - 1) as nat);
    }
}

/// Once reading a list fails, reading a longer list fails the same way.
proof fn lemma_strings_n_err(s: Seq<u8>, pos: nat, k: nat, m: nat)
    requires
        k <= m,
        parse_strings_n(s, pos, k) is Err,
    ensures
        parse_strings_n(s, pos, m) == parse_strings_n(s, pos, k),
    decreases m - k,
{
    if k < m {
        lemma_strings_n_err(s, pos, k, (m - 1) as nat);
    }
}

/// Reads a list of strings at `pos`.
pub fn decode_strings(bytes: &[u8], pos: usize) -> (r: Result<(Vec<String>, usize), CodecError>)
    requires
        pos <= bytes@.len(),
    ensures
        match parse_strings_at(bytes@, pos as nat) {
            Ok((v, p)) => r matches Ok((x, q)) && x@.map_values(|e: String| e@) == v && q == p
                && q <= bytes@.len(),
            Err(e) => r matches Err(f) && f == e,
        },
{
    let (n, start) = match decode_varint(bytes, pos) {
        Ok(x) => x,
        Err(e) => return Err(e),
    };
    let mut out: Vec<String> = Vec::new();
    let mut p = start;
    proof {
        assert(parse_varint_at(bytes@, pos as nat) == Ok::<(u64, nat), CodecError>((n, start as nat)));
        assert(out@.map_values(|e: String| e@) =~= seq![]);
    }
    let mut i: u64 = 0;
    while i < n
        invariant
            i <= n,
            p <= bytes@.len(),
            parse_varint_at(bytes@, pos as nat) == Ok::<(u64, nat), CodecError>((n, start as nat)),
            parse_strings_n(bytes@, start as nat, i as nat) == Ok::<
                (Seq<Seq<char>>, nat),
                CodecError,
            >((out@.map_values(|e: String| e@), p as nat)),
        decreases n - i,
    {
        proof {
            lemma_parse_string_end(bytes@, p as nat);
        }
        match decode_string(bytes, p) {
            Ok((x, q)) => {
                proof {
                    let ghost before = out@;
                    assert(before.push(x).map_values(|e: String| e@) =~= before.map_values(
                        |e: String| e@,
                    ).push(x@));
                }
                out.push(x);
                p = q;
            },
            Err(e) => {
                proof {
                    assert(parse_strings_n(bytes@, start as nat, (i + 1) as nat) == Err::<
                        (Seq<Seq<char>>, nat),
                        CodecError,
                    >(e));
                    lemma_strings_n_err(bytes@, start as nat, (i + 1) as nat, n as nat);
                }
                return Err(e);
            },
        }
        i = i + 1;
    }
    proof {
        assert(parse_varint_at(bytes@, pos as nat) == Ok::<(u64, nat), CodecError>((n, start as nat)));
    }
    Ok((out, p))
}

/// A request to the settings service.
#[derive(Debug)]
pub enum SettingsRequest {
    Clear,
    Get(String),
    SetBatch(Vec<SettingInfo>),
    GetBatch(Vec<String>),
    AddObserver(String),
    RemoveObserver(String, u32),
    ReleaseObject(u32),
}

/// The value a request stands for.
pub enum RequestView {
    Clear,
    Get(Seq<char>),
    SetBatch(Seq<SettingView>),
    GetBatch(Seq<Seq<char>>),
    AddObserver(Seq<char>),
    RemoveObserver(Seq<char>, u32),
    ReleaseObject(u32),
}

impl View for SettingsRequest {
    type V = RequestView;

    open spec fn view(&self) -> RequestView {
        match self {
            SettingsRequest::Clear => RequestView::Clear,
            SettingsRequest::Get(n) => RequestView::Get(n@),
            SettingsRequest::SetBatch(v) => RequestView::SetBatch(v@.map_values(|e: SettingInfo| e@)),
            SettingsRequest::GetBatch(v) => RequestView::GetBatch(v@.map_values(|e: String| e@)),
            SettingsRequest::AddObserver(n) => RequestView::AddObserver(n@),
            SettingsRequest::RemoveObserver(n, o) => RequestView::RemoveObserver(n@, *o),
            SettingsRequest::ReleaseObject(o) => RequestView::ReleaseObject(*o),
        }
    }
}

/// The encoding of a request: its variant tag, then its fields in order.
pub open spec fn request_bytes(r: RequestView) -> Seq<u8> {
    match r {
        RequestView::Clear => varint(0),
        RequestView::Get(n) => varint(1) + string_field(n),
        RequestView::SetBatch(v) => varint(2) + settings_field(v),
        RequestView::GetBatch(v) => varint(3) + strings_field(v),
        RequestView::AddObserver(n) => varint(4) + string_field(n),
        RequestView::RemoveObserver(n, o) => varint(5) + string_field(n) + varint(o as u64),
        RequestView::ReleaseObject(o) => varint(6) + varint(o as u64),
    }
}

/// `Ok(v)` when the value was read up to the end of the input.
pub open spec fn at_end<T>(r: Result<(T, nat), CodecError>, len: nat) -> Result<T, CodecError> {
    match r {
        Err(e) => Err(e),
        Ok((v, p)) => if p == len {
            Ok(v)
        } else {
            Err(CodecError::TrailingBytes)
        },
    }
}

/// Reading the fields of a request with tag `tag` from `pos` on.
pub open spec fn parse_request_fields(s: Seq<u8>, tag: u32, pos: nat) -> Result<
    (RequestView, nat),
    CodecError,
> {
    if tag == 0 {
        Ok((RequestView::Clear, pos))
    } else if tag == 1 {
        match parse_string_at(s, pos) {
            Err(e) => Err(e),
            Ok((n, p)) => Ok((RequestView::Get(n), p)),
        }
    } else if tag == 2 {
        match parse_settings_at(s, pos) {
            Err(e) => Err(e),
            Ok((v, p)) => Ok((RequestView::SetBatch(v), p)),
        }
    } else if tag == 3 {
        match parse_strings_at(s, pos) {
            Err(e) => Err(e),
            Ok((v, p)) => Ok((RequestView::GetBatch(v), p)),
        }
    } else if tag == 4 {
        match parse_string_at(s, pos) {
            Err(e) => Err(e),
            Ok((n, p)) => Ok((RequestView::AddObserver(n), p)),
        }
    } else if tag == 5 {
        match parse_string_at(s, pos) {
            Err(e) => Err(e),
            Ok((n, p)) => match parse_u32_at(s, p) {
                Err(e) => Err(e),
                Ok((o, q)) => Ok((RequestView::RemoveObserver(n, o), q)),
            },
        }
    } else if tag == 6 {
        match parse_u32_at(s, pos) {
            Err(e) => Err(e),
            Ok((o, q)) => Ok((RequestView::ReleaseObject(o), q)),
        }
    } else {
        Err(CodecError::InvalidTag)
    }
}

/// Reading a request that spans all of `s`.
pub open spec fn parse_request(s: Seq<u8>) -> Result<RequestView, CodecError> {
    match parse_u32_at(s, 0) {
        Err(e) => Err(e),
        Ok((tag, p)) => at_end(parse_request_fields(s, tag, p), s.len()),
    }
}

/// Whether every string and list of a request fits a length field, and
/// every value it carries is JSON.
pub open spec fn request_fits(r: RequestView) -> bool {
    match r {
        RequestView::Get(n) => vstd::utf8::encode_utf8(n).len() <= u64::MAX,
        RequestView::SetBatch(v) => v.len() <= u64::MAX && settings_fit(v),
        RequestView::GetBatch(v) => v.len() <= u64::MAX && forall|i: int|
            0 <= i < v.len() ==> vstd::utf8::encode_utf8(#[trigger] v[i]).len() <= u64::MAX,
        RequestView::AddObserver(n) => vstd::utf8::encode_utf8(n).len() <= u64::MAX,
        RequestView::RemoveObserver(n, _) => vstd::utf8::encode_utf8(n).len() <= u64::MAX,
        _ => true,
    }
}

proof fn lemma_request_from_fields(s: Seq<u8>, tag: u32, body: Seq<u8>, r: RequestView)
    requires
        s == varint(tag as u64) + body,
        parse_request_fields(s, tag, varint(tag as u64).len()) == Ok::<(RequestView, nat), CodecError>(
            (r, s.len()),
        ),
    ensures
        parse_request(s) == Ok::<RequestView, CodecError>(r),
{
    lemma_u32_at(Seq::<u8>::empty(), tag, body);
    assert(s =~= Seq::<u8>::empty() + varint(tag as u64) + body);
}

proof fn lemma_name_request(tag: u32, n: Seq<char>, r: RequestView)
    requires
        1 == tag || tag == 4,
        vstd::utf8::encode_utf8(n).len() <= u64::MAX,
        r == (if tag == 1 { RequestView::Get(n) } else { RequestView::AddObserver(n) }),
    ensures
        parse_request(varint(tag as u64) + string_field(n)) == Ok::<RequestView, CodecError>(r),
{
    let s = varint(tag as u64) + string_field(n);
    lemma_string_at(varint(tag as u64), n, Seq::<u8>::empty());
    assert(s =~= varint(tag as u64) + string_field(n) + Seq::<u8>::empty());
    lemma_request_from_fields(s, tag, string_field(n), r);
}

proof fn lemma_set_request(v: Seq<SettingView>)
    requires
        v.len() <= u64::MAX,
        settings_fit(v),
    ensures
        parse_request(varint(2) + settings_field(v)) == Ok::<RequestView, CodecError>(
            RequestView::SetBatch(v),
        ),
{
    let e = Seq::<u8>::empty();
    let s = varint(2) + settings_field(v);
    lemma_varint_at(varint(2), v.len() as u64, settings_concat(v));
    assert(s =~= varint(2) + varint(v.len() as u64) + settings_concat(v));
    lemma_settings_n(varint(2) + varint(v.len() as u64), v, e);
    assert(s =~= varint(2) + varint(v.len() as u64) + settings_concat(v) + e);
    let p0 = varint(2).len();
    let p1 = p0 + varint(v.len() as u64).len();
    assert(parse_varint_at(s, p0) == Ok::<(u64, nat), CodecError>((v.len() as u64, p1)));
    assert(parse_settings_n(s, p1, v.len()) == Ok::<(Seq<SettingView>, nat), CodecError>((v, s.len())));
    assert(parse_settings_at(s, p0) == Ok::<(Seq<SettingView>, nat), CodecError>((v, s.len())));
    assert(parse_request_fields(s, 2, p0) == Ok::<(RequestView, nat), CodecError>((RequestView::SetBatch(v), s.len())));
    lemma_request_from_fields(s, 2, settings_field(v), RequestView::SetBatch(v));
}

proof fn lemma_batch_request(v: Seq<Seq<char>>)
    requires
        v.len() <= u64::MAX,
        forall|i: int| 0 <= i < v.len() ==> vstd::utf8::encode_utf8(#[trigger] v[i]).len() <= u64::MAX,
    ensures
        parse_request(varint(3) + strings_field(v)) == Ok::<RequestView, CodecError>(
            RequestView::GetBatch(v),
        ),
{
    let e = Seq::<u8>::empty();
    let s = varint(3) + strings_field(v);
    lemma_varint_at(varint(3), v.len() as u64, strings_concat(v));
    assert(s =~= varint(3) + varint(v.len() as u64) + strings_concat(v));
    lemma_strings_n(varint(3) + varint(v.len() as u64), v, e);
    assert(s =~= varint(3) + varint(v.len() as u64) + strings_concat(v) + e);
    let p0 = varint(3).len();
    let p1 = p0 + varint(v.len() as u64).len();
    assert(parse_varint_at(s, p0) == Ok::<(u64, nat), CodecError>((v.len() as u64, p1)));
    assert(parse_strings_n(s, p1, v.len()) == Ok::<(Seq<Seq<char>>, nat), CodecError>((v, s.len())));
    assert(parse_strings_at(s, p0) == Ok::<(Seq<Seq<char>>, nat), CodecError>((v, s.len())));
    assert(parse_request_fields(s, 3, p0) == Ok::<(RequestView, nat), CodecError>((RequestView::GetBatch(v), s.len())));
    lemma_request_from_fields(s, 3, strings_field(v), RequestView::GetBatch(v));
}

proof fn lemma_remove_observer_request(n: Seq<char>, o: u32)
    requires
        vstd::utf8::encode_utf8(n).len() <= u64::MAX,
    ensures
        parse_request(varint(5) + string_field(n) + varint(o as u64)) == Ok::<
            RequestView,
            CodecError,
        >(RequestView::RemoveObserver(n, o)),
{
    let e = Seq::<u8>::empty();
    let s = varint(5) + string_field(n) + varint(o as u64);
    lemma_string_at(varint(5), n, varint(o as u64));
    lemma_u32_at(varint(5) + string_field(n), o, e);
    assert(s =~= varint(5) + string_field(n) + varint(o as u64) + e);
    assert(s =~= varint(5) + (string_field(n) + varint(o as u64)));
    lemma_request_from_fields(
        s,
        5,
        string_field(n) + varint(o as u64),
        RequestView::RemoveObserver(n, o),
    );
}

proof fn lemma_release_request(o: u32)
    ensures
        parse_request(varint(6) + varint(o as u64)) == Ok::<RequestView, CodecError>(
            RequestView::ReleaseObject(o),
        ),
{
    let e = Seq::<u8>::empty();
    let s = varint(6) + varint(o as u64);
    lemma_u32_at(varint(6), o, e);
    assert(s =~= varint(6) + varint(o as u64) + e);
    lemma_request_from_fields(s, 6, varint(o as u64), RequestView::ReleaseObject(o));
}

/// Decoding an encoded request gives the request back.
pub proof fn lemma_request_round_trip(r: RequestView)
    requires
        request_fits(r),
    ensures
        parse_request(request_bytes(r)) == Ok::<RequestView, CodecError>(r),
{
    match r {
        RequestView::Clear => {
            let e = Seq::<u8>::empty();
            assert(varint(0) =~= varint(0) + e);
            lemma_request_from_fields(varint(0), 0, e, r);
        },
        RequestView::Get(n) => lemma_name_request(1, n, r),
        RequestView::SetBatch(v) => lemma_set_request(v),
        RequestView::GetBatch(v) => lemma_batch_request(v),
        RequestView::AddObserver(n) => lemma_name_request(4, n, r),
        RequestView::RemoveObserver(n, o) => lemma_remove_observer_request(n, o),
        RequestView::ReleaseObject(o) => lemma_release_request(o),
    }
}

/// Encodes a request.
pub fn encode_request(r: &SettingsRequest) -> (out: Vec<u8>)
    ensures
        out@ == request_bytes(r@),
{
    let mut out: Vec<u8> = Vec::new();
    match r {
        SettingsRequest::Clear => {
            encode_varint(0, &mut out);
        },
        SettingsRequest::Get(n) => {
            encode_varint(1, &mut out);
            encode_string(n.as_str(), &mut out);
        },
        SettingsRequest::SetBatch(v) => {
            encode_varint(2, &mut out);
            encode_settings(v, &mut out);
        },
        SettingsRequest::GetBatch(v) => {
            encode_varint(3, &mut out);
            encode_strings(v, &mut out);
        },
        SettingsRequest::AddObserver(n) => {
            encode_varint(4, &mut out);
            encode_string(n.as_str(), &mut out);
        },
        SettingsRequest::RemoveObserver(n, o) => {
            encode_varint(5, &mut out);
            encode_string(n.as_str(), &mut out);
            encode_varint(*o as u64, &mut out);
        },
        SettingsRequest::ReleaseObject(o) => {
            encode_varint(6, &mut out);
            encode_varint(*o as u64, &mut out);
        },
    }
    proof {
        assert(out@ =~= request_bytes(r@));
    }
    out
}

/// Decodes a request that spans all of `bytes`.
pub fn decode_request(bytes: &[u8]) -> (r: Result<SettingsRequest, CodecError>)
    ensures
        match parse_request(bytes@) {
            Ok(v) => r matches Ok(x) && x@ == v,
            Err(e) => r matches Err(f) && f == e,
        },
{
    let (tag, p) = match decode_u32(bytes, 0) {
        Ok(x) => x,
        Err(e) => return Err(e),
    };
    let (req, q) = if tag == 0 {
        (SettingsRequest::Clear, p)
    } else if tag == 1 {
        match decode_string(bytes, p) {
            Ok((n, q)) => (SettingsRequest::Get(n), q),
            Err(e) => return Err(e),
        }
    } else if tag == 2 {
        match decode_settings(bytes, p) {
            Ok((v, q)) => (SettingsRequest::SetBatch(v), q),
            Err(e) => return Err(e),
        }
    } else if tag == 3 {
        match decode_strings(bytes, p) {
            Ok((v, q)) => (SettingsRequest::GetBatch(v), q),
            Err(e) => return Err(e),
        }
    } else if tag == 4 {
        match decode_string(bytes, p) {
            Ok((n, q)) => (SettingsRequest::AddObserver(n), q),
            Err(e) => return Err(e),
        }
    } else if tag == 5 {
        let (n, q) = match decode_string(bytes, p) {
            Ok(x) => x,
            Err(e) => return Err(e),
        };
        proof {
            lemma_parse_string_end(bytes@, p as nat);
        }
        match decode_u32(bytes, q) {
            Ok((o, t)) => (SettingsRequest::RemoveObserver(n, o), t),
            Err(e) => return Err(e),
        }
    } else if tag == 6 {
        match decode_u32(bytes, p) {
            Ok((o, t)) => (SettingsRequest::ReleaseObject(o), t),
            Err(e) => return Err(e),
        }
    } else {
        return Err(CodecError::InvalidTag);
    };
    if q != bytes.len() {
        return Err(CodecError::TrailingBytes);
    }
    Ok(req)
}

/// Why a setting could not be read.
#[derive(Debug, Clone, Copy, PartialEq, Eq, Structural)]
pub enum GetErrorReason {
    NonExistingSetting,
    UnknownError,
}

/// An answer of the settings service to one request.
#[derive(Debug)]
pub enum SettingsResponse {
    ClearSuccess,
    ClearError,
    GetSuccess(SettingInfo),
    GetError(String, GetErrorReason),
    SetSuccess,
    SetError,
    GetBatchSuccess(Vec<SettingInfo>),
    GetBatchError,
    AddObserverSuccess(u32),
    AddObserverError,
    RemoveObserverSuccess,
    RemoveObserverError,
    ReleaseObjectSuccess,
    ReleaseObjectError,
    PermissionError(String, String),
}

/// The value an answer stands for.
pub enum ResponseView {
    ClearSuccess,
    ClearError,
    GetSuccess(SettingView),
    GetError(Seq<char>, GetErrorReason),
    SetSuccess,
    SetError,
    GetBatchSuccess(Seq<SettingView>),
    GetBatchError,
    AddObserverSuccess(u32),
    AddObserverError,
    RemoveObserverSuccess,
    RemoveObserverError,
    ReleaseObjectSuccess,
    ReleaseObjectError,
    PermissionError(Seq<char>, Seq<char>),
}

impl View for SettingsResponse {
    type V = ResponseView;

    open spec fn view(&self) -> ResponseView {
        match self {
            SettingsResponse::ClearSuccess => ResponseView::ClearSuccess,
            SettingsResponse::ClearError => ResponseView::ClearError,
            SettingsResponse::GetSuccess(s) => ResponseView::GetSuccess(s@),
            SettingsResponse::GetError(n, r) => ResponseView::GetError(n@, *r),
            SettingsResponse::SetSuccess => ResponseView::SetSuccess,
            SettingsResponse::SetError => ResponseView::SetError,
            SettingsResponse::GetBatchSuccess(v) => ResponseView::GetBatchSuccess(
                v@.map_values(|e: SettingInfo| e@),
            ),
            SettingsResponse::GetBatchError => ResponseView::GetBatchError,
            SettingsResponse::AddObserverSuccess(o) => ResponseView::AddObserverSuccess(*o),
            SettingsResponse::AddObserverError => ResponseView::AddObserverError,
            SettingsResponse::RemoveObserverSuccess => ResponseView::RemoveObserverSuccess,
            SettingsResponse::RemoveObserverError => ResponseView::RemoveObserverError,
            SettingsResponse::ReleaseObjectSuccess => ResponseView::ReleaseObjectSuccess,
            SettingsResponse::ReleaseObjectError => ResponseView::ReleaseObjectError,
            SettingsResponse::PermissionError(p, m) => ResponseView::PermissionError(p@, m@),
        }
    }
}

/// The encoding of an answer: its variant tag, then its fields in order.
pub open spec fn response_bytes(r: ResponseView) -> Seq<u8> {
    match r {
        ResponseView::ClearSuccess => varint(0),
        ResponseView::ClearError => varint(1),
        ResponseView::GetSuccess(s) => varint(2) + setting_field(s),
        ResponseView::GetError(n, reason) => varint(3) + string_field(n) + varint(
            match reason {
                GetErrorReason::NonExistingSetting => 0,
                GetErrorReason::UnknownError => 1,
            },
        ),
        ResponseView::SetSuccess => varint(4),
        ResponseView::SetError => varint(5),
        ResponseView::GetBatchSuccess(v) => varint(6) + settings_field(v),
        ResponseView::GetBatchError => varint(7),
        ResponseView::AddObserverSuccess(o) => varint(8) + varint(o as u64),
        ResponseView::AddObserverError => varint(9),
        ResponseView::RemoveObserverSuccess => varint(10),
        ResponseView::RemoveObserverError => varint(11),
        ResponseView::ReleaseObjectSuccess => varint(12),
        ResponseView::ReleaseObjectError => varint(13),
        ResponseView::PermissionError(p, m) => varint(14) + string_field(p) + string_field(m),
    }
}

/// Encodes an answer.
pub fn encode_response(r: &SettingsResponse) -> (out: Vec<u8>)
    ensures
        out@ == response_bytes(r@),
{
    let mut out: Vec<u8> = Vec::new();
    match r {
        SettingsResponse::ClearSuccess => encode_varint(0, &mut out),
        SettingsResponse::ClearError => encode_varint(1, &mut out),
        SettingsResponse::GetSuccess(s) => {
            encode_varint(2, &mut out);
            encode_setting(s, &mut out);
        },
        SettingsResponse::GetError(n, reason) => {
            encode_varint(3, &mut out);
            encode_string(n.as_str(), &mut out);
            let code: u64 = match reason {
                GetErrorReason::NonExistingSetting => 0,
                GetErrorReason::UnknownError => 1,
            };
            encode_varint(code, &mut out);
        },
        SettingsResponse::SetSuccess => encode_varint(4, &mut out),
        SettingsResponse::SetError => encode_varint(5, &mut out),
        SettingsResponse::GetBatchSuccess(v) => {
            encode_varint(6, &mut out);
            encode_settings(v, &mut out);
        },
        SettingsResponse::GetBatchError => encode_varint(7, &mut out),
        SettingsResponse::AddObserverSuccess(o) => {
            encode_varint(8, &mut out);
            encode_varint(*o as u64, &mut out);
        },
        SettingsResponse::AddObserverError => encode_varint(9, &mut out),
        SettingsResponse::RemoveObserverSuccess => encode_varint(10, &mut out),
        SettingsResponse::RemoveObserverError => encode_varint(11, &mut out),
        SettingsResponse::ReleaseObjectSuccess => encode_varint(12, &mut out),
        SettingsResponse::ReleaseObjectError => encode_varint(13, &mut out),
        SettingsResponse::PermissionError(p, m) => {
            encode_varint(14, &mut out);
            encode_string(p.as_str(), &mut out);
            encode_string(m.as_str(), &mut out);
        },
    }
    proof {
        assert(out@ =~= response_bytes(r@));
    }
    out
}

/// The payload of the event that reports a setting's new value.
pub open spec fn change_event_bytes(s: SettingView) -> Seq<u8> {
    varint(0) + setting_field(s)
}

/// Encodes the event that reports a setting's new value.
pub fn encode_change_event(s: &SettingInfo) -> (out: Vec<u8>)
    ensures
        out@ == change_event_bytes(s@),
{
    let mut out: Vec<u8> = Vec::new();
    encode_varint(0, &mut out);
    encode_setting(s, &mut out);
    out
}

/// Reading a change event that spans all of `s`.
pub open spec fn parse_change_event(s: Seq<u8>) -> Result<SettingView, CodecError> {
    match parse_u32_at(s, 0) {
        Err(e) => Err(e),
        Ok((tag, p)) => if tag != 0 {
            Err(CodecError::InvalidTag)
        } else {
            at_end(parse_setting_at(s, p), s.len())
        },
    }
}

/// Decoding an encoded change event gives its setting back.
pub proof fn lemma_change_event_round_trip(v: SettingView)
    requires
        json_accepts(v.value),
        setting_fits(v),
    ensures
        parse_change_event(change_event_bytes(v)) == Ok::<SettingView, CodecError>(v),
{
    let e = Seq::<u8>::empty();
    let s = change_event_bytes(v);
    lemma_u32_at(e, 0, setting_field(v));
    assert(s =~= e + varint(0) + setting_field(v));
    lemma_setting_at(varint(0), v, e);
    assert(s =~= varint(0) + setting_field(v) + e);
}

/// Decodes a change event that spans all of `bytes`.
pub fn decode_change_event(bytes: &[u8]) -> (r: Result<SettingInfo, CodecError>)
    ensures
        match parse_change_event(bytes@) {
            Ok(v) => r matches Ok(x) && x@ == v,
            Err(e) => r matches Err(f) && f == e,
        },
{
    let (tag, p) = match decode_u32(bytes, 0) {
        Ok(x) => x,
        Err(e) => return Err(e),
    };
    if tag != 0 {
        return Err(CodecError::InvalidTag);
    }
    let (setting, q) = match decode_setting(bytes, p) {
        Ok(x) => x,
        Err(e) => return Err(e),
    };
    if q != bytes.len() {
        return Err(CodecError::TrailingBytes);
    }
    Ok(setting)
}

/// The answer without fields that tag `tag` stands for, if any.
pub open spec fn unit_response(tag: u32) -> Option<ResponseView> {
    if tag == 0 {
        Some(ResponseView::ClearSuccess)
    } else if tag == 1 {
        Some(ResponseView::ClearError)
    } else if tag == 4 {
        Some(ResponseView::SetSuccess)
    } else if tag == 5 {
        Some(ResponseView::SetError)
    } else if tag == 7 {
        Some(ResponseView::GetBatchError)
    } else if tag == 9 {
        Some(ResponseView::AddObserverError)
    } else if tag == 10 {
        Some(ResponseView::RemoveObserverSuccess)
    } else if tag == 11 {
        Some(ResponseView::RemoveObserverError)
    } else if tag == 12 {
        Some(ResponseView::ReleaseObjectSuccess)
    } else if tag == 13 {
        Some(ResponseView::ReleaseObjectError)
    } else {
        None
    }
}

/// Reading the fields of an answer with tag `tag` from `pos` on.
pub open spec fn parse_response_fields(s: Seq<u8>, tag: u32, pos: nat) -> Result<
    (ResponseView, nat),
    CodecError,
> {
    if unit_response(tag) is Some {
        Ok((unit_response(tag).unwrap(), pos))
    } else if tag == 2 {
        match parse_setting_at(s, pos) {
            Err(e) => Err(e),
            Ok((v, p)) => Ok((ResponseView::GetSuccess(v), p)),
        }
    } else if tag == 3 {
        match parse_string_at(s, pos) {
            Err(e) => Err(e),
            Ok((n, p)) => match parse_u32_at(s, p) {
                Err(e) => Err(e),
                Ok((code, q)) => if code == 0 {
                    Ok((ResponseView::GetError(n, GetErrorReason::NonExistingSetting), q))
                } else if code == 1 {
                    Ok((ResponseView::GetError(n, GetErrorReason::UnknownError), q))
                } else {
                    Err(CodecError::InvalidTag)
                },
            },
        }
    } else if tag == 6 {
        match parse_settings_at(s, pos) {
            Err(e) => Err(e),
            Ok((v, p)) => Ok((ResponseView::GetBatchSuccess(v), p)),
        }
    } else if tag == 8 {
        match parse_u32_at(s, pos) {
            Err(e) => Err(e),
            Ok((o, p)) => Ok((ResponseView::AddObserverSuccess(o), p)),
        }
    } else if tag == 14 {
        match parse_string_at(s, pos) {
            Err(e) => Err(e),
            Ok((a, p)) => match parse_string_at(s, p) {
                Err(e) => Err(e),
                Ok((b, q)) => Ok((ResponseView::PermissionError(a, b), q)),
            },
        }
    } else {
        Err(CodecError::InvalidTag)
    }
}

/// Reading an answer that spans all of `s`.
pub open spec fn parse_response(s: Seq<u8>) -> Result<ResponseView, CodecError> {
    match parse_u32_at(s, 0) {
        Err(e) => Err(e),
        Ok((tag, p)) => at_end(parse_response_fields(s, tag, p), s.len()),
    }
}

/// Whether every string and list of an answer fits a length field, and
/// every value it carries is JSON.
pub open spec fn response_fits(r: ResponseView) -> bool {
    match r {
        ResponseView::GetSuccess(v) => json_accepts(v.value) && setting_fits(v),
        ResponseView::GetError(n, _) => vstd::utf8::encode_utf8(n).len() <= u64::MAX,
        ResponseView::GetBatchSuccess(v) => v.len() <= u64::MAX && settings_fit(v),
        ResponseView::PermissionError(a, b) => vstd::utf8::encode_utf8(a).len() <= u64::MAX
            && vstd::utf8::encode_utf8(b).len() <= u64::MAX,
        _ => true,
    }
}

proof fn lemma_response_from_fields(s: Seq<u8>, tag: u32, body: Seq<u8>, r: ResponseView)
    requires
        s == varint(tag as u64) + body,
        parse_response_fields(s, tag, varint(tag as u64).len()) == Ok::<(ResponseView, nat), CodecError>(
            (r, s.len()),
        ),
    ensures
        parse_response(s) == Ok::<ResponseView, CodecError>(r),
{
    lemma_u32_at(Seq::<u8>::empty(), tag, body);
    assert(s =~= Seq::<u8>::empty() + varint(tag as u64) + body);
}

proof fn lemma_get_error_response(n: Seq<char>, reason: GetErrorReason)
    requires
        vstd::utf8::encode_utf8(n).len() <= u64::MAX,
    ensures
        parse_response(response_bytes(ResponseView::GetError(n, reason))) == Ok::<
            ResponseView,
            CodecError,
        >(ResponseView::GetError(n, reason)),
{
    let e = Seq::<u8>::empty();
    let code: u32 = match reason {
        GetErrorReason::NonExistingSetting => 0,
        GetErrorReason::UnknownError => 1,
    };
    let s = response_bytes(ResponseView::GetError(n, reason));
    assert(s =~= varint(3) + string_field(n) + varint(code as u64));
    lemma_string_at(varint(3), n, varint(code as u64));
    lemma_u32_at(varint(3) + string_field(n), code, e);
    assert(s =~= varint(3) + string_field(n) + varint(code as u64) + e);
    assert(s =~= varint(3) + (string_field(n) + varint(code as u64)));
    lemma_response_from_fields(s, 3, string_field(n) + varint(code as u64), ResponseView::GetError(n, reason));
}

proof fn lemma_permission_response(a: Seq<char>, b: Seq<char>)
    requires
        vstd::utf8::encode_utf8(a).len() <= u64::MAX,
        vstd::utf8::encode_utf8(b).len() <= u64::MAX,
    ensures
        parse_response(response_bytes(ResponseView::PermissionError(a, b))) == Ok::<
            ResponseView,
            CodecError,
        >(ResponseView::PermissionError(a, b)),
{
    let e = Seq::<u8>::empty();
    let s = response_bytes(ResponseView::PermissionError(a, b));
    lemma_string_at(varint(14), a, string_field(b));
    lemma_string_at(varint(14) + string_field(a), b, e);
    assert(s =~= varint(14) + string_field(a) + string_field(b) + e);
    assert(s =~= varint(14) + (string_field(a) + string_field(b)));
    lemma_response_from_fields(s, 14, string_field(a) + string_field(b), ResponseView::PermissionError(a, b));
}

proof fn lemma_batch_response(v: Seq<SettingView>)
    requires
        v.len() <= u64::MAX,
        settings_fit(v),
    ensures
        parse_response(response_bytes(ResponseView::GetBatchSuccess(v))) == Ok::<
            ResponseView,
            CodecError,
        >(ResponseView::GetBatchSuccess(v)),
{
    let e = Seq::<u8>::empty();
    let s = response_bytes(ResponseView::GetBatchSuccess(v));
    lemma_varint_at(varint(6), v.len() as u64, settings_concat(v));
    assert(s =~= varint(6) + varint(v.len() as u64) + settings_concat(v));
    lemma_settings_n(varint(6) + varint(v.len() as u64), v, e);
    assert(s =~= varint(6) + varint(v.len() as u64) + settings_concat(v) + e);
    let p0 = varint(6).len();
    let p1 = p0 + varint(v.len() as u64).len();
    assert((v.len() as u64) as nat == v.len());
    assert(parse_varint_at(s, p0) == Ok::<(u64, nat), CodecError>((v.len() as u64, p1)));
    assert(parse_settings_n(s, p1, v.len()) == Ok::<(Seq<SettingView>, nat), CodecError>((v, s.len())));
    assert(parse_settings_at(s, p0) == Ok::<(Seq<SettingView>, nat), CodecError>((v, s.len())));
    lemma_response_from_fields(s, 6, settings_field(v), ResponseView::GetBatchSuccess(v));
}

/// Decoding an encoded answer gives the answer back.
pub proof fn lemma_response_round_trip(r: ResponseView)
    requires
        response_fits(r),
    ensures
        parse_response(response_bytes(r)) == Ok::<ResponseView, CodecError>(r),
{
    let e = Seq::<u8>::empty();
    let s = response_bytes(r);
    match r {
        ResponseView::GetSuccess(v) => {
            lemma_setting_at(varint(2), v, e);
            assert(s =~= varint(2) + setting_field(v) + e);
            lemma_response_from_fields(s, 2, setting_field(v), r);
        },
        ResponseView::GetError(n, reason) => lemma_get_error_response(n, reason),
        ResponseView::GetBatchSuccess(v) => lemma_batch_response(v),
        ResponseView::AddObserverSuccess(o) => {
            lemma_u32_at(varint(8), o, e);
            assert(s =~= varint(8) + varint(o as u64) + e);
            lemma_response_from_fields(s, 8, varint(o as u64), r);
        },
        ResponseView::PermissionError(a, b) => lemma_permission_response(a, b),
        _ => {
            assert(s =~= s + e);
            lemma_response_from_fields(s, response_tag(r), e, r);
        },
    }
}

/// The tag of an answer.
pub open spec fn response_tag(r: ResponseView) -> u32 {
    match r {
        ResponseView::ClearSuccess => 0,
        ResponseView::ClearError => 1,
        ResponseView::GetSuccess(_) => 2,
        ResponseView::GetError(_, _) => 3,
        ResponseView::SetSuccess => 4,
        ResponseView::SetError => 5,
        ResponseView::GetBatchSuccess(_) => 6,
        ResponseView::GetBatchError => 7,
        ResponseView::AddObserverSuccess(_) => 8,
        ResponseView::AddObserverError => 9,
        ResponseView::RemoveObserverSuccess => 10,
        ResponseView::RemoveObserverError => 11,
        ResponseView::ReleaseObjectSuccess => 12,
        ResponseView::ReleaseObjectError => 13,
        ResponseView::PermissionError(_, _) => 14,
    }
}

/// Decodes an answer that spans all of `bytes`.
pub fn decode_response(bytes: &[u8]) -> (r: Result<SettingsResponse, CodecError>)
    ensures
        match parse_response(bytes@) {
            Ok(v) => r matches Ok(x) && x@ == v,
            Err(e) => r matches Err(f) && f == e,
        },
{
    let (tag, p) = match decode_u32(bytes, 0) {
        Ok(x) => x,
        Err(e) => return Err(e),
    };
    let (resp, q) = if tag == 0 {
        (SettingsResponse::ClearSuccess, p)
    } else if tag == 1 {
        (SettingsResponse::ClearError, p)
    } else if tag == 4 {
        (SettingsResponse::SetSuccess, p)
    } else if tag == 5 {
        (SettingsResponse::SetError, p)
    } else if tag == 7 {
        (SettingsResponse::GetBatchError, p)
    } else if tag == 9 {
        (SettingsResponse::AddObserverError, p)
    } else if tag == 10 {
        (SettingsResponse::RemoveObserverSuccess, p)
    } else if tag == 11 {
        (SettingsResponse::RemoveObserverError, p)
    } else if tag == 12 {
        (SettingsResponse::ReleaseObjectSuccess, p)
    } else if tag == 13 {
        (SettingsResponse::ReleaseObjectError, p)
    } else if tag == 2 {
        match decode_setting(bytes, p) {
            Ok((v, q)) => (SettingsResponse::GetSuccess(v), q),
            Err(e) => return Err(e),
        }
    } else if tag == 3 {
        let (n, q) = match decode_string(bytes, p) {
            Ok(x) => x,
            Err(e) => return Err(e),
        };
        proof {
            lemma_parse_string_end(bytes@, p as nat);
        }
        let (code, t) = match decode_u32(bytes, q) {
            Ok(x) => x,
            Err(e) => return Err(e),
        };
        if code == 0 {
            (SettingsResponse::GetError(n, GetErrorReason::NonExistingSetting), t)
        } else if code == 1 {
            (SettingsResponse::GetError(n, GetErrorReason::UnknownError), t)
        } else {
            return Err(CodecError::InvalidTag);
        }
    } else if tag == 6 {
        match decode_settings(bytes, p) {
            Ok((v, q)) => (SettingsResponse::GetBatchSuccess(v), q),
            Err(e) => return Err(e),
        }
    } else if tag == 8 {
        match decode_u32(bytes, p) {
            Ok((o, q)) => (SettingsResponse::AddObserverSuccess(o), q),
            Err(e) => return Err(e),
        }
    } else if tag == 14 {
        let (a, q) = match decode_string(bytes, p) {
            Ok(x) => x,
            Err(e) => return Err(e),
        };
        proof {
            lemma_parse_string_end(bytes@, p as nat);
        }
        match decode_string(bytes, q) {
            Ok((b, t)) => (SettingsResponse::PermissionError(a, b), t),
            Err(e) => return Err(e),
        }
    } else {
        return Err(CodecError::InvalidTag);
    };
    if q != bytes.len() {
        return Err(CodecError::TrailingBytes);
    }
    Ok(resp)
}

} // verus!
