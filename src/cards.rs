//! Contacts as they arrive from a SIM card or a vCard file.
use crate::time::SystemTime;
use vstd::prelude::*;
use vstd::string::StrSliceExecFns;

verus! {

/// The character between the values of one SIM field.
pub open spec fn sep() -> char {
    '\u{1E}'
}

/// `parts` joined with the separator between each two.
pub open spec fn join_fields(parts: Seq<Seq<char>>) -> Seq<char>
    decreases parts.len(),
{
    if parts.len() == 0 {
        seq![]
    } else if parts.len() == 1 {
        parts[0]
    } else {
        join_fields(parts.drop_last()) + seq![sep()] + parts.last()
    }
}

/// Whether `s` holds no separator.
pub open spec fn no_sep(s: Seq<char>) -> bool {
    forall|i: int| 0 <= i < s.len() ==> s[i] != sep()
}

proof fn lemma_join_extend_last(parts: Seq<Seq<char>>, last: Seq<char>, c: char)
    ensures
        join_fields(parts.push(last.push(c))) == join_fields(parts.push(last)).push(c),
{
    let a = parts.push(last.push(c));
    let b = parts.push(last);
    assert(a.drop_last() =~= parts);
    assert(b.drop_last() =~= parts);
    if parts.len() == 0 {
        assert(a[0] == last.push(c));
    } else {
        assert(join_fields(parts) + seq![sep()] + last.push(c) =~= (join_fields(parts) + seq![sep()]
            + last).push(c));
    }
}

proof fn lemma_join_new_part(parts: Seq<Seq<char>>, last: Seq<char>)
    ensures
        join_fields(parts.push(last).push(seq![])) == join_fields(parts.push(last)).push(sep()),
{
    let a = parts.push(last).push(seq![]);
    assert(a.drop_last() =~= parts.push(last));
    assert(join_fields(parts.push(last)) + seq![sep()] + seq![] =~= join_fields(parts.push(last)).push(
        sep(),
    ));
}

/// Splits `s` at each separator: the parts hold no separator, and joined
/// with it they give `s` back.
pub fn split_fields(s: &str) -> (r: Vec<String>)
    ensures
        join_fields(r@.map_values(|p: String| p@)) == s@,
        forall|i: int| 0 <= i < r@.len() ==> no_sep(#[trigger] r@[i]@),
        r@.len() >= 1,
{
    let n = s.unicode_len();
    let mut out: Vec<String> = Vec::new();
    let mut start: usize = 0;
    let mut j: usize = 0;
    proof {
        assert(s@.subrange(0, 0) =~= Seq::<char>::empty());
        assert(out@.map_values(|p: String| p@).push(s@.subrange(0, 0)) =~= seq![Seq::<char>::empty()]);
    }
    while j < n
        invariant
            n == s@.len(),
            start <= j <= n,
            join_fields(out@.map_values(|p: String| p@).push(s@.subrange(start as int, j as int)))
                == s@.subrange(0, j as int),
            forall|i: int| 0 <= i < out@.len() ==> no_sep(#[trigger] out@[i]@),
            no_sep(s@.subrange(start as int, j as int)),
        decreases n - j,
    {
        let c = s.get_char(j);
        let ghost parts = out@.map_values(|p: String| p@);
        let ghost cur = s@.subrange(start as int, j as int);
        if c == '\u{1E}' {
            let piece = s.substring_char(start, j).to_string();
            out.push(piece);
            start = j + 1;
            proof {
                assert(out@.map_values(|p: String| p@) =~= parts.push(cur));
                lemma_join_new_part(parts, cur);
                assert(s@.subrange(start as int, j + 1) =~= seq![]);
                assert(s@.subrange(0, j + 1) =~= s@.subrange(0, j as int).push(c));
                assert forall|i: int| 0 <= i < out@.len() implies no_sep(#[trigger] out@[i]@) by {
                    if i == out@.len() - 1 {
                        assert(out@[i]@ == cur);
                    }
                }
            }
        } else {
            proof {
                assert(s@.subrange(start as int, j + 1) =~= cur.push(c));
                lemma_join_extend_last(parts, cur, c);
                assert(s@.subrange(0, j + 1) =~= s@.subrange(0, j as int).push(c));
            }
        }
        j = j + 1;
    }
    let ghost parts = out@.map_values(|p: String| p@);
    let last = s.substring_char(start, n).to_string();
    out.push(last);
    proof {
        assert(out@.map_values(|p: String| p@) =~= parts.push(s@.subrange(start as int, n as int)));
        assert(s@.subrange(0, n as int) =~= s@);
        assert forall|i: int| 0 <= i < out@.len() implies no_sep(#[trigger] out@[i]@) by {
            if i == out@.len() - 1 {
                assert(out@[i]@ == s@.subrange(start as int, n as int));
            }
        }
    }
    out
}

/// One value of a multi-valued field, with its kind and preference.
#[derive(Debug, Clone)]
pub struct ContactField {
    pub atype: String,
    pub value: String,
    pub pref: bool,
}

/// One phone number, with its kind, preference and carrier.
#[derive(Debug, Clone)]
pub struct ContactTelField {
    pub atype: String,
    pub value: String,
    pub pref: bool,
    pub carrier: String,
}

/// A contact as a SIM card stores it: multi-valued fields hold their values
/// joined by the separator.
#[derive(Debug, Clone)]
pub struct SimContactInfo {
    pub id: String,
    pub tel: String,
    pub email: String,
    pub name: String,
}

/// A contact record, with the fields that imports fill.
#[derive(Debug, Clone)]
pub struct ContactInfo {
    pub id: String,
    pub name: String,
    pub family_name: String,
    pub given_name: String,
    pub tel: Option<Vec<ContactTelField>>,
    pub email: Option<Vec<ContactField>>,
    pub category: Option<Vec<String>>,
    pub job_title: Option<Vec<String>>,
    pub published: SystemTime,
    pub updated: SystemTime,
    pub bday: SystemTime,
    pub anniversary: SystemTime,
    pub sex: String,
    pub gender_identity: String,
    pub ringtone: String,
    pub phonetic_given_name: String,
    pub phonetic_family_name: String,
    pub honorific_prefix: Option<Vec<String>>,
    pub additional_name: Option<Vec<String>>,
    pub honorific_suffix: Option<Vec<String>>,
    pub nickname: Option<Vec<String>>,
    pub org: Option<Vec<String>>,
    pub note: Option<Vec<String>>,
    pub groups: Option<Vec<String>>,
    pub ice_position: i64,
}

/// The values of a list of phone numbers.
pub open spec fn tel_values(t: Option<Vec<ContactTelField>>) -> Option<Seq<Seq<char>>> {
    match t {
        Some(v) => Some(v@.map_values(|f: ContactTelField| f.value@)),
        None => None,
    }
}

/// The values of a list of fields.
pub open spec fn field_values(t: Option<Vec<ContactField>>) -> Option<Seq<Seq<char>>> {
    match t {
        Some(v) => Some(v@.map_values(|f: ContactField| f.value@)),
        None => None,
    }
}

/// The texts of an optional list of strings.
pub open spec fn string_values(t: Option<Vec<String>>) -> Option<Seq<Seq<char>>> {
    match t {
        Some(v) => Some(v@.map_values(|f: String| f@)),
        None => None,
    }
}

/// Whether every phone number is plain: no kind, not preferred, no carrier.
pub open spec fn plain_tels(t: Option<Vec<ContactTelField>>) -> bool {
    t matches Some(v) ==> forall|i: int|
        0 <= i < v@.len() ==> (#[trigger] v@[i]).atype@.len() == 0 && !v@[i].pref
            && v@[i].carrier@.len() == 0
}

/// Whether every field is plain: no kind, not preferred.
pub open spec fn plain_fields(t: Option<Vec<ContactField>>) -> bool {
    t matches Some(v) ==> forall|i: int|
        0 <= i < v@.len() ==> (#[trigger] v@[i]).atype@.len() == 0 && !v@[i].pref
}

fn tel_fields(values: Vec<String>) -> (r: Vec<ContactTelField>)
    ensures
        r@.map_values(|f: ContactTelField| f.value@) == values@.map_values(|v: String| v@),
        plain_tels(Some(r)),
{
    let mut out: Vec<ContactTelField> = Vec::new();
    let n = values.len();
    let mut i: usize = 0;
    while i < n
        invariant
            n == values@.len(),
            i <= n,
            out@.map_values(|f: ContactTelField| f.value@) == values@.subrange(0, i as int).map_values(
                |v: String| v@,
            ),
            forall|k: int|
                0 <= k < out@.len() ==> (#[trigger] out@[k]).atype@.len() == 0 && !out@[k].pref
                    && out@[k].carrier@.len() == 0,
        decreases n - i,
    {
        let v = values[i].clone();
        let f = ContactTelField { atype: String::new(), value: v, pref: false, carrier: String::new() };
        let ghost before = out@;
        out.push(f);
        proof {
            assert(f.value@ == values@[i as int]@);
            assert(out@ == before.push(f));
            assert(out@.map_values(|f: ContactTelField| f.value@) =~= before.map_values(|f: ContactTelField| f.value@).push(f.value@));
            assert(values@.subrange(0, i + 1).map_values(|v: String| v@) =~= values@.subrange(0, i as int).map_values(|v: String| v@).push(values@[i as int]@));
            assert(out@.map_values(|f: ContactTelField| f.value@) =~= values@.subrange(0, i + 1).map_values(
                |v: String| v@,
            ));
            assert forall|k: int| 0 <= k < out@.len() implies (#[trigger] out@[k]).atype@.len() == 0
                && !out@[k].pref && out@[k].carrier@.len() == 0 by {
                if k < before.len() {
                    assert(out@[k] == before[k]);
                } else {
                    assert(out@[k] == f);
                }
            }
        }
        i = i + 1;
    }
    proof {
        assert(values@.subrange(0, n as int) =~= values@);
    }
    out
}

fn plain_field_list(values: Vec<String>) -> (r: Vec<ContactField>)
    ensures
        r@.map_values(|f: ContactField| f.value@) == values@.map_values(|v: String| v@),
        plain_fields(Some(r)),
{
    let mut out: Vec<ContactField> = Vec::new();
    let n = values.len();
    let mut i: usize = 0;
    while i < n
        invariant
            n == values@.len(),
            i <= n,
            out@.map_values(|f: ContactField| f.value@) == values@.subrange(0, i as int).map_values(
                |v: String| v@,
            ),
            forall|k: int|
                0 <= k < out@.len() ==> (#[trigger] out@[k]).atype@.len() == 0 && !out@[k].pref,
        decreases n - i,
    {
        let v = values[i].clone();
        let f = ContactField { atype: String::new(), value: v, pref: false };
        let ghost before = out@;
        out.push(f);
        proof {
            assert(f.value@ == values@[i as int]@);
            assert(out@ == before.push(f));
            assert(out@.map_values(|f: ContactField| f.value@) =~= before.map_values(|f: ContactField| f.value@).push(f.value@));
            assert(values@.subrange(0, i + 1).map_values(|v: String| v@) =~= values@.subrange(0, i as int).map_values(|v: String| v@).push(values@[i as int]@));
            assert(out@.map_values(|f: ContactField| f.value@) =~= values@.subrange(0, i + 1).map_values(
                |v: String| v@,
            ));
            assert forall|k: int| 0 <= k < out@.len() implies (#[trigger] out@[k]).atype@.len() == 0
                && !out@[k].pref by {
                if k < before.len() {
                    assert(out@[k] == before[k]);
                } else {
                    assert(out@[k] == f);
                }
            }
        }
        i = i + 1;
    }
    proof {
        assert(values@.subrange(0, n as int) =~= values@);
    }
    out
}

impl ContactInfo {
    /// A contact with every field empty and both times at the epoch.
    pub fn empty() -> (r: ContactInfo)
        ensures
            r.id@.len() == 0,
            r.name@.len() == 0,
            r.family_name@.len() == 0,
            r.given_name@.len() == 0,
            r.tel is None,
            r.email is None,
            r.category is None,
            r.job_title is None,
            r.published@ == 0,
            r.updated@ == 0,
    {
        ContactInfo {
            id: String::new(),
            name: String::new(),
            family_name: String::new(),
            given_name: String::new(),
            tel: None,
            email: None,
            category: None,
            job_title: None,
            published: SystemTime::from_millis(0),
            updated: SystemTime::from_millis(0),
            bday: SystemTime::from_millis(0),
            anniversary: SystemTime::from_millis(0),
            sex: String::new(),
            gender_identity: String::new(),
            ringtone: String::new(),
            phonetic_given_name: String::new(),
            phonetic_family_name: String::new(),
            honorific_prefix: None,
            additional_name: None,
            honorific_suffix: None,
            nickname: None,
            org: None,
            note: None,
            groups: None,
            ice_position: 0,
        }
    }

    /// The contact a SIM card holds: its name in all three name fields, one
    /// plain phone number or address per separated value, the category
    /// `SIM`, and `now` as creation and update time.
    pub fn from_sim(sim: &SimContactInfo, now: SystemTime) -> (r: ContactInfo)
        ensures
            r.id@ == sim.id@,
            r.name@ == sim.name@,
            r.family_name@ == sim.name@,
            r.given_name@ == sim.name@,
            tel_values(r.tel) matches Some(t) && join_fields(t) == sim.tel@ && forall|i: int|
                0 <= i < t.len() ==> no_sep(#[trigger] t[i]),
            field_values(r.email) matches Some(e) && join_fields(e) == sim.email@ && forall|i: int|
                0 <= i < e.len() ==> no_sep(#[trigger] e[i]),
            plain_tels(r.tel),
            plain_fields(r.email),
            string_values(r.category) == Some(seq!["SIM"@]),
            r.job_title is None,
            r.published == now,
            r.updated == now,
    {
        let tels = split_fields(sim.tel.as_str());
        let emails = split_fields(sim.email.as_str());
        let ghost tv = tels@.map_values(|v: String| v@);
        let ghost ev = emails@.map_values(|v: String| v@);
        let tel = tel_fields(tels);
        let email = plain_field_list(emails);
        let mut category: Vec<String> = Vec::new();
        category.push("SIM".to_string());
        proof {
            assert(category@.map_values(|f: String| f@) =~= seq!["SIM"@]);
            assert forall|i: int| 0 <= i < tv.len() implies no_sep(#[trigger] tv[i]) by {
                assert(tv[i] == tels@[i]@);
            }
            assert forall|i: int| 0 <= i < ev.len() implies no_sep(#[trigger] ev[i]) by {
                assert(ev[i] == emails@[i]@);
            }
        }
        ContactInfo {
            id: sim.id.clone(),
            name: sim.name.clone(),
            family_name: sim.name.clone(),
            given_name: sim.name.clone(),
            tel: Some(tel),
            email: Some(email),
            category: Some(category),
            job_title: None,
            published: now,
            updated: now,
            bday: SystemTime::from_millis(0),
            anniversary: SystemTime::from_millis(0),
            sex: String::new(),
            gender_identity: String::new(),
            ringtone: String::new(),
            phonetic_given_name: String::new(),
            phonetic_family_name: String::new(),
            honorific_prefix: None,
            additional_name: None,
            honorific_suffix: None,
            nickname: None,
            org: None,
            note: None,
            groups: None,
            ice_position: 0,
        }
    }
}

/// The cards of a vCard text as ical reads them, in order: each card as the
/// name and value of each of its properties, or `None` where ical reports
/// an error.
pub uninterp spec fn vcard_cards(text: Seq<char>) -> Seq<Option<Seq<(Seq<char>, Option<Seq<char>>)>>>;

/// The text of an optional string.
pub open spec fn opt_text(o: Option<String>) -> Option<Seq<char>> {
    match o {
        Some(s) => Some(s@),
        None => None,
    }
}

/// Properties as names and values.
pub open spec fn props_view(v: Vec<(String, Option<String>)>) -> Seq<(Seq<char>, Option<Seq<char>>)> {
    v@.map_values(|p: (String, Option<String>)| (p.0@, opt_text(p.1)))
}

/// Cards as their properties.
pub open spec fn cards_view(v: Seq<Option<Vec<(String, Option<String>)>>>) -> Seq<
    Option<Seq<(Seq<char>, Option<Seq<char>>)>>,
> {
    v.map_values(
        |c: Option<Vec<(String, Option<String>)>>|
            match c {
                Some(p) => Some(props_view(p)),
                None => None,
            },
    )
}

/// Relies on `ical::VcardParser`: it reads the cards of `vcf` in order,
/// each as its list of properties with name and optional value, or as an
/// error; what it reads depends on the text alone.
#[verifier::external_body]
fn parse_vcards(vcf: &str) -> (r: Vec<Option<Vec<(String, Option<String>)>>>)
    ensures
        cards_view(r@) == vcard_cards(vcf@),
{
    ical::VcardParser::new(std::io::BufReader::new(vcf.as_bytes()))
        .map(|card| card.ok().map(|c| c.properties.into_iter().map(|p| (p.name, p.value)).collect()))
        .collect()
}

/// What an import fills of a contact.
pub struct CardView {
    pub name: Seq<char>,
    pub emails: Option<Seq<Seq<char>>>,
    pub tels: Option<Seq<Seq<char>>>,
    pub titles: Option<Seq<Seq<char>>>,
}

/// What `c` holds of the fields an import fills.
pub open spec fn card_of_contact(c: ContactInfo) -> CardView {
    CardView {
        name: c.name@,
        emails: field_values(c.email),
        tels: tel_values(c.tel),
        titles: string_values(c.job_title),
    }
}

/// `v` added at the end of an optional list.
pub open spec fn push_opt(o: Option<Seq<Seq<char>>>, v: Seq<char>) -> Option<Seq<Seq<char>>> {
    match o {
        Some(s) => Some(s.push(v)),
        None => Some(seq![v]),
    }
}

/// The card after property `p`: `EMAIL` and `TEL` add their value when there
/// is one, `FN` sets the name, `TITLE` adds a job title; other properties
/// are ignored.
pub open spec fn apply_property(c: CardView, p: (Seq<char>, Option<Seq<char>>)) -> CardView {
    if p.0 == "EMAIL"@ {
        match p.1 {
            Some(v) => CardView { emails: push_opt(c.emails, v), ..c },
            None => c,
        }
    } else if p.0 == "TEL"@ {
        match p.1 {
            Some(v) => CardView { tels: push_opt(c.tels, v), ..c },
            None => c,
        }
    } else if p.0 == "FN"@ {
        CardView {
            name: match p.1 {
                Some(v) => v,
                None => Seq::empty(),
            },
            ..c
        }
    } else if p.0 == "TITLE"@ {
        CardView {
            titles: push_opt(
                c.titles,
                match p.1 {
                    Some(v) => v,
                    None => Seq::empty(),
                },
            ),
            ..c
        }
    } else {
        c
    }
}

/// The card that the properties `props` make, from an empty one.
pub open spec fn card_of(props: Seq<(Seq<char>, Option<Seq<char>>)>) -> CardView
    decreases props.len(),
{
    if props.len() == 0 {
        CardView { name: Seq::empty(), emails: None, tels: None, titles: None }
    } else {
        apply_property(card_of(props.drop_last()), props.last())
    }
}

/// The cards that were read without error, in order.
pub open spec fn imported_cards(cards: Seq<Option<Seq<(Seq<char>, Option<Seq<char>>)>>>) -> Seq<
    CardView,
>
    decreases cards.len(),
{
    if cards.len() == 0 {
        seq![]
    } else {
        match cards.last() {
            Some(p) => imported_cards(cards.drop_last()).push(card_of(p)),
            None => imported_cards(cards.drop_last()),
        }
    }
}

fn push_tel(o: Option<Vec<ContactTelField>>, value: String) -> (r: Option<Vec<ContactTelField>>)
    ensures
        tel_values(r) == push_opt(tel_values(o), value@),
{
    let f = ContactTelField { atype: String::new(), value, pref: false, carrier: String::new() };
    let mut list = match o {
        Some(l) => l,
        None => Vec::new(),
    };
    let ghost before = list@;
    list.push(f);
    proof {
        assert(list@.map_values(|f: ContactTelField| f.value@) =~= before.map_values(
            |f: ContactTelField| f.value@,
        ).push(value@));
    }
    Some(list)
}

fn push_field(o: Option<Vec<ContactField>>, value: String) -> (r: Option<Vec<ContactField>>)
    ensures
        field_values(r) == push_opt(field_values(o), value@),
{
    let f = ContactField { atype: String::new(), value, pref: false };
    let mut list = match o {
        Some(l) => l,
        None => Vec::new(),
    };
    let ghost before = list@;
    list.push(f);
    proof {
        assert(list@.map_values(|f: ContactField| f.value@) =~= before.map_values(
            |f: ContactField| f.value@,
        ).push(value@));
    }
    Some(list)
}

fn push_string(o: Option<Vec<String>>, value: String) -> (r: Option<Vec<String>>)
    ensures
        string_values(r) == push_opt(string_values(o), value@),
{
    let mut list = match o {
        Some(l) => l,
        None => Vec::new(),
    };
    let ghost before = list@;
    let ghost v = value@;
    list.push(value);
    proof {
        assert(list@.map_values(|f: String| f@) =~= before.map_values(|f: String| f@).push(v));
    }
    Some(list)
}

impl ContactInfo {
    /// Applies one vCard property, as `apply_property` says.
    pub fn apply_vcard_property(self, name: String, value: Option<String>) -> (r: ContactInfo)
        ensures
            card_of_contact(r) == apply_property(card_of_contact(self), (name@, opt_text(value))),
            r.id == self.id,
            r.category == self.category,
            r.published == self.published,
            r.updated == self.updated,
    {
        let mut c = self;
        if name == "EMAIL".to_string() {
            match value {
                Some(v) => {
                    c.email = push_field(c.email, v);
                },
                None => {},
            }
        } else if name == "TEL".to_string() {
            match value {
                Some(v) => {
                    c.tel = push_tel(c.tel, v);
                },
                None => {},
            }
        } else if name == "FN".to_string() {
            c.name = match value {
                Some(v) => v,
                None => String::new(),
            };
        } else if name == "TITLE".to_string() {
            let v = match value {
                Some(v) => v,
                None => String::new(),
            };
            c.job_title = push_string(c.job_title, v);
        }
        c
    }

    /// The contact that the properties of one vCard make.
    pub fn from_vcard_properties(props: Vec<(String, Option<String>)>) -> (r: ContactInfo)
        ensures
            card_of_contact(r) == card_of(props_view(props)),
            r.id@.len() == 0,
            r.category is None,
            r.published@ == 0,
            r.updated@ == 0,
    {
        let ghost all = props_view(props);
        let mut rest = props;
        let mut rev: Vec<(String, Option<String>)> = Vec::new();
        proof {
            assert(props_view(rest) + props_view(rev).reverse() =~= all);
        }
        while rest.len() > 0
            invariant
                props_view(rest) + props_view(rev).reverse() == all,
            decreases rest@.len(),
        {
            let ghost r0 = rest@;
            let ghost v0 = rev@;
            let p = rest.pop().unwrap();
            let ghost pv = (p.0@, opt_text(p.1));
            rev.push(p);
            proof {
                assert(r0 == rest@.push(p));
                assert(props_view(rest).push(pv) =~= r0.map_values(
                    |p: (String, Option<String>)| (p.0@, opt_text(p.1)),
                ));
                assert(props_view(rev) =~= props_view_of(v0).push(pv));
                assert(props_view(rev).reverse() =~= seq![pv] + props_view_of(v0).reverse());
                assert(props_view(rest) + props_view(rev).reverse() =~= props_view(rest).push(pv)
                    + props_view_of(v0).reverse());
            }
        }
        let mut c = ContactInfo::empty();
        let ghost n = all.len();
        let ghost mut k: int = 0;
        proof {
            assert(props_view(rest) =~= Seq::<(Seq<char>, Option<Seq<char>>)>::empty());
            assert(props_view(rev).reverse() =~= all.subrange(0, n as int));
            assert(c.name@ =~= Seq::<char>::empty());
            assert(card_of_contact(c) == card_of(all.subrange(0, 0)));
        }
        while rev.len() > 0
            invariant
                0 <= k <= all.len(),
                props_view(rev).reverse() == all.subrange(k, all.len() as int),
                card_of_contact(c) == card_of(all.subrange(0, k)),
                c.id@.len() == 0,
                c.category is None,
                c.published@ == 0,
                c.updated@ == 0,
            decreases rev@.len(),
        {
            let ghost v0 = rev@;
            let p = rev.pop().unwrap();
            let ghost pv = (p.0@, opt_text(p.1));
            proof {
                assert(v0 == rev@.push(p));
                assert(props_view_of(v0) =~= props_view(rev).push(pv));
                assert(props_view_of(v0).reverse() =~= seq![pv] + props_view(rev).reverse());
                assert(all.subrange(k, all.len() as int)[0] == pv);
                assert(all[k] == pv);
                let tail = all.subrange(k, all.len() as int);
                let x = props_view(rev).reverse();
                assert(tail == seq![pv] + x);
                assert(all.subrange(k + 1, all.len() as int) =~= tail.subrange(1, tail.len() as int));
                assert(tail.subrange(1, tail.len() as int) =~= x);
                assert(all.subrange(0, k + 1).drop_last() =~= all.subrange(0, k));
            }
            c = c.apply_vcard_property(p.0, p.1);
            proof {
                k = k + 1;
            }
        }
        proof {
            assert(all.subrange(0, k) =~= all);
        }
        c
    }
}

/// Properties of a sequence of pairs, as names and values.
pub open spec fn props_view_of(v: Seq<(String, Option<String>)>) -> Seq<(Seq<char>, Option<Seq<char>>)> {
    v.map_values(|p: (String, Option<String>)| (p.0@, opt_text(p.1)))
}

/// The contacts of a vCard text, one per card that ical reads without
/// error, in order.
pub fn contacts_from_vcf(vcf: &str) -> (r: Vec<ContactInfo>)
    ensures
        r@.map_values(|c: ContactInfo| card_of_contact(c)) == imported_cards(vcard_cards(vcf@)),
        forall|i: int| 0 <= i < r@.len() ==> (#[trigger] r@[i]).id@.len() == 0 && r@[i].category is None,
{
    let cards = parse_vcards(vcf);
    let ghost all = cards_view(cards@);
    let mut rest = cards;
    let mut rev: Vec<Option<Vec<(String, Option<String>)>>> = Vec::new();
    proof {
        assert(cards_view(rest@) + cards_view(rev@).reverse() =~= all);
    }
    while rest.len() > 0
        invariant
            cards_view(rest@) + cards_view(rev@).reverse() == all,
        decreases rest@.len(),
    {
        let ghost r0 = rest@;
        let ghost v0 = rev@;
        let c = rest.pop().unwrap();
        let ghost cv = cards_view(seq![c])[0];
        rev.push(c);
        proof {
            assert(r0 == rest@.push(c));
            assert(cards_view(r0) =~= cards_view(rest@).push(cv));
            assert(cards_view(rev@) =~= cards_view(v0).push(cv));
            assert(cards_view(rev@).reverse() =~= seq![cv] + cards_view(v0).reverse());
            assert(cards_view(rest@) + cards_view(rev@).reverse() =~= cards_view(r0) + cards_view(
                v0,
            ).reverse());
        }
    }
    let mut out: Vec<ContactInfo> = Vec::new();
    let ghost mut k: int = 0;
    proof {
        assert(cards_view(rest@) =~= Seq::<Option<Seq<(Seq<char>, Option<Seq<char>>)>>>::empty());
        assert(cards_view(rev@).reverse() =~= all.subrange(0, all.len() as int));
        assert(out@.map_values(|c: ContactInfo| card_of_contact(c)) =~= imported_cards(
            all.subrange(0, 0),
        ));
    }
    while rev.len() > 0
        invariant
            0 <= k <= all.len(),
            cards_view(rev@).reverse() == all.subrange(k, all.len() as int),
            out@.map_values(|c: ContactInfo| card_of_contact(c)) == imported_cards(
                all.subrange(0, k),
            ),
            forall|i: int|
                0 <= i < out@.len() ==> (#[trigger] out@[i]).id@.len() == 0 && out@[i].category is None,
        decreases rev@.len(),
    {
        let ghost v0 = rev@;
        let c = rev.pop().unwrap();
        let ghost cv = cards_view(seq![c])[0];
        proof {
            assert(v0 == rev@.push(c));
            assert(cards_view(v0) =~= cards_view(rev@).push(cv));
            assert(cards_view(v0).reverse() =~= seq![cv] + cards_view(rev@).reverse());
            assert(all.subrange(k, all.len() as int)[0] == cv);
            assert(all[k] == cv);
            let tail = all.subrange(k, all.len() as int);
            let x = cards_view(rev@).reverse();
            assert(tail == seq![cv] + x);
            assert(all.subrange(k + 1, all.len() as int) =~= tail.subrange(1, tail.len() as int));
            assert(tail.subrange(1, tail.len() as int) =~= x);
            assert(all.subrange(0, k + 1).drop_last() =~= all.subrange(0, k));
        }
        match c {
            Some(props) => {
                let ghost before = out@;
                let contact = ContactInfo::from_vcard_properties(props);
                out.push(contact);
                proof {
                    assert(out@.map_values(|c: ContactInfo| card_of_contact(c)) =~= before.map_values(
                        |c: ContactInfo| card_of_contact(c),
                    ).push(card_of_contact(contact)));
                }
            },
            None => {},
        }
        proof {
            k = k + 1;
        }
    }
    proof {
        assert(all.subrange(0, k) =~= all);
    }
    out
}

/// The decimal digits of `n`, most significant first.
pub open spec fn decimal(n: nat) -> Seq<char>
    decreases n,
{
    if n < 10 {
        seq!["0123456789"@[n as int]]
    } else {
        decimal(n / 10).push("0123456789"@[(n % 10) as int])
    }
}

/// `v` written in decimal, after a `-` when it is negative.
pub open spec fn decimal_text(v: i64) -> Seq<char> {
    if v < 0 {
        "-"@ + decimal((-v) as nat)
    } else {
        decimal(v as nat)
    }
}

/// The decimal digit `d`.
fn digit_text(d: u64) -> (r: &'static str)
    requires
        d < 10,
    ensures
        r@ == seq!["0123456789"@[d as int]],
{
    proof {
        reveal_strlit("0123456789");
    }
    let digits: &'static str = "0123456789";
    let r = digits.substring_char(d as usize, d as usize + 1);
    proof {
        assert(r@ =~= seq!["0123456789"@[d as int]]);
    }
    r
}

/// The decimal digits of `n`.
fn decimal_string(n: u64) -> (r: String)
    ensures
        r@ == decimal(n as nat),
    decreases n,
{
    if n < 10 {
        digit_text(n).to_string()
    } else {
        let mut s = decimal_string(n / 10);
        s.append(digit_text(n % 10));
        proof {
            assert(s@ =~= decimal((n / 10) as nat).push("0123456789"@[(n % 10) as int]));
        }
        s
    }
}

/// `v` in decimal, as `decimal_text` says.
fn i64_text(v: i64) -> (r: String)
    ensures
        r@ == decimal_text(v),
{
    if v < 0 {
        let magnitude = (0 - (v as i128)) as u64;
        let mut s = "-".to_string();
        s.append(decimal_string(magnitude).as_str());
        s
    } else {
        decimal_string(v as u64)
    }
}

/// One row of additional data for each value of a list field.
pub open spec fn list_rows(kind: Seq<char>, values: Option<Seq<Seq<char>>>) -> Seq<
    (Seq<char>, Seq<char>),
> {
    match values {
        Some(v) => v.map_values(|x: Seq<char>| (kind, x)),
        None => seq![],
    }
}

/// One row of additional data for a text field that is not empty.
pub open spec fn text_row(kind: Seq<char>, value: Seq<char>) -> Seq<(Seq<char>, Seq<char>)> {
    if value.len() == 0 {
        seq![]
    } else {
        seq![(kind, value)]
    }
}

/// The rows of additional data that store `c`, as kind and value, in the
/// order they are written: the list fields, the non-empty text fields, the
/// emergency position when set, and the groups.
pub open spec fn additional_rows(c: ContactInfo) -> Seq<(Seq<char>, Seq<char>)> {
    list_rows("honorific_prefix"@, string_values(c.honorific_prefix))
        + list_rows("additional_name"@, string_values(c.additional_name))
        + list_rows("honorific_suffix"@, string_values(c.honorific_suffix))
        + list_rows("nickname"@, string_values(c.nickname))
        + list_rows("category"@, string_values(c.category))
        + list_rows("org"@, string_values(c.org))
        + list_rows("job_title"@, string_values(c.job_title))
        + list_rows("note"@, string_values(c.note))
        + text_row("sex"@, c.sex@)
        + text_row("gender_identity"@, c.gender_identity@)
        + text_row("ringtone"@, c.ringtone@)
        + text_row("phonetic_given_name"@, c.phonetic_given_name@)
        + text_row("phonetic_family_name"@, c.phonetic_family_name@)
        + (if c.ice_position != 0 {
        seq![("ice_position"@, decimal_text(c.ice_position))]
    } else {
        seq![]
    }) + list_rows("groups"@, string_values(c.groups))
}

/// Rows as kinds and values.
pub open spec fn rows_view(v: Seq<(String, String)>) -> Seq<(Seq<char>, Seq<char>)> {
    v.map_values(|r: (String, String)| (r.0@, r.1@))
}

fn push_list_rows(out: &mut Vec<(String, String)>, kind: &str, values: &Option<Vec<String>>)
    ensures
        rows_view(final(out)@) == rows_view(old(out)@) + list_rows(kind@, string_values(*values)),
{
    match values {
        Some(v) => {
            let ghost start = rows_view(out@);
            let ghost vs = v@.map_values(|f: String| f@);
            let n = v.len();
            let mut i: usize = 0;
            while i < n
                invariant
                    n == v@.len(),
                    i <= n,
                    vs == v@.map_values(|f: String| f@),
                    rows_view(out@) == start + vs.subrange(0, i as int).map_values(
                        |x: Seq<char>| (kind@, x),
                    ),
                decreases n - i,
            {
                let ghost before = out@;
                let row = (kind.to_string(), v[i].clone());
                out.push(row);
                proof {
                    assert(rows_view(out@) =~= rows_view(before).push((kind@, vs[i as int])));
                    assert(vs.subrange(0, i + 1).map_values(|x: Seq<char>| (kind@, x)) =~= vs.subrange(
                        0,
                        i as int,
                    ).map_values(|x: Seq<char>| (kind@, x)).push((kind@, vs[i as int])));
                }
                i = i + 1;
            }
            proof {
                assert(vs.subrange(0, n as int) =~= vs);
            }
        },
        None => {
            proof {
                assert(rows_view(out@) =~= rows_view(out@) + Seq::<(Seq<char>, Seq<char>)>::empty());
            }
        },
    }
}

fn push_text_row(out: &mut Vec<(String, String)>, kind: &str, value: &String)
    ensures
        rows_view(final(out)@) == rows_view(old(out)@) + text_row(kind@, value@),
{
    let ghost before = out@;
    if !value.as_str().is_empty() {
        out.push((kind.to_string(), value.clone()));
        proof {
            assert(rows_view(out@) =~= rows_view(before) + seq![(kind@, value@)]);
        }
    } else {
        proof {
            assert(value@.len() == 0);
            assert(rows_view(out@) =~= rows_view(before) + Seq::<(Seq<char>, Seq<char>)>::empty());
        }
    }
}

impl ContactInfo {
    /// The rows of additional data that store this contact, as
    /// `additional_rows` says.
    pub fn additional_data_rows(&self) -> (r: Vec<(String, String)>)
        ensures
            rows_view(r@) == additional_rows(*self),
    {
        let mut out: Vec<(String, String)> = Vec::new();
        push_list_rows(&mut out, "honorific_prefix", &self.honorific_prefix);
        push_list_rows(&mut out, "additional_name", &self.additional_name);
        push_list_rows(&mut out, "honorific_suffix", &self.honorific_suffix);
        push_list_rows(&mut out, "nickname", &self.nickname);
        push_list_rows(&mut out, "category", &self.category);
        push_list_rows(&mut out, "org", &self.org);
        push_list_rows(&mut out, "job_title", &self.job_title);
        push_list_rows(&mut out, "note", &self.note);
        push_text_row(&mut out, "sex", &self.sex);
        push_text_row(&mut out, "gender_identity", &self.gender_identity);
        push_text_row(&mut out, "ringtone", &self.ringtone);
        push_text_row(&mut out, "phonetic_given_name", &self.phonetic_given_name);
        push_text_row(&mut out, "phonetic_family_name", &self.phonetic_family_name);
        let ghost mid = out@;
        if self.ice_position != 0 {
            out.push(("ice_position".to_string(), i64_text(self.ice_position)));
            proof {
                assert(rows_view(out@) =~= rows_view(mid) + seq![
                    ("ice_position"@, decimal_text(self.ice_position)),
                ]);
            }
        } else {
            proof {
                assert(rows_view(out@) =~= rows_view(mid) + Seq::<(Seq<char>, Seq<char>)>::empty());
            }
        }
        push_list_rows(&mut out, "groups", &self.groups);
        proof {
            assert(rows_view(out@) =~= additional_rows(*self));
        }
        out
    }
}

/// The value of a run of decimal digits.
pub open spec fn digits_value(d: Seq<char>) -> int
    decreases d.len(),
{
    if d.len() == 0 {
        0
    } else {
        digits_value(d.drop_last()) * 10 + ((d.last() as u32) as int - 48)
    }
}

/// `s` read as an `i64`: an optional `+` or `-`, then at least one decimal
/// digit and nothing else, and a value in range.
pub open spec fn decimal_i64(s: Seq<char>) -> Option<i64> {
    let neg = s.len() > 0 && s[0] == '-';
    let d = digit_run(s);
    if d.len() == 0 || !all_digits(d) {
        None
    } else {
        let v = if neg {
            -digits_value(d)
        } else {
            digits_value(d)
        };
        if i64::MIN <= v <= i64::MAX {
            Some(v as i64)
        } else {
            None
        }
    }
}

/// `s` without its sign, if it starts with one.
pub open spec fn digit_run(s: Seq<char>) -> Seq<char> {
    if s.len() > 0 && (s[0] == '-' || s[0] == '+') {
        s.drop_first()
    } else {
        s
    }
}

/// Whether every character of `d` is a decimal digit.
pub open spec fn all_digits(d: Seq<char>) -> bool {
    forall|i: int| 0 <= i < d.len() ==> '0' <= #[trigger] d[i] <= '9'
}

proof fn lemma_digits_grow(d: Seq<char>, k: int, m: int)
    requires
        0 <= k <= m <= d.len(),
        all_digits(d),
    ensures
        digits_value(d.subrange(0, k)) <= digits_value(d.subrange(0, m)),
        digits_value(d.subrange(0, m)) >= 0,
    decreases m,
{
    if m > 0 {
        let p = d.subrange(0, m);
        assert(p.drop_last() =~= d.subrange(0, m - 1));
        if k < m {
            lemma_digits_grow(d, k, m - 1);
        } else {
            lemma_digits_grow(d, m - 1, m - 1);
        }
        assert('0' <= d[m - 1] <= '9');
    } else {
        assert(d.subrange(0, 0) =~= Seq::<char>::empty());
    }
}

/// `s` read as an `i64`, as `decimal_i64` says.
fn parse_i64(s: &str) -> (r: Option<i64>)
    ensures
        r == decimal_i64(s@),
{
    let n = s.unicode_len();
    if n == 0 {
        return None;
    }
    let first = s.get_char(0);
    let neg = first == '-';
    let start: usize = if first == '-' || first == '+' {
        1
    } else {
        0
    };
    let ghost d = if start == 1 {
        s@.drop_first()
    } else {
        s@
    };
    proof {
        assert(d =~= s@.subrange(start as int, n as int));
        assert(digit_run(s@) == d);
    }
    if start == n {
        return None;
    }
    let mut acc: i128 = 0;
    let mut i: usize = start;
    proof {
        assert(d.subrange(0, 0) =~= Seq::<char>::empty());
    }
    while i < n
        invariant
            start <= i <= n,
            n == s@.len(),
            d == s@.subrange(start as int, n as int),
            d == digit_run(s@),
            neg == (s@.len() > 0 && s@[0] == '-'),
            acc as int == digits_value(d.subrange(0, i - start)),
            0 <= acc <= 9223372036854775808,
            forall|j: int| 0 <= j < i - start ==> '0' <= #[trigger] d[j] <= '9',
        decreases n - i,
    {
        let c = s.get_char(i);
        proof {
            assert(d[i - start] == c);
        }
        if !('0' <= c && c <= '9') {
            proof {
                assert(!('0' <= d[i - start] <= '9'));
                assert(!all_digits(d));
            }
            return None;
        }
        let ghost prev = d.subrange(0, i - start);
        proof {
            assert(d.subrange(0, i - start + 1).drop_last() =~= prev);
        }
        acc = acc * 10 + ((c as u32) as i128 - 48);
        proof {
            assert(acc as int == digits_value(d.subrange(0, i - start + 1)));
        }
        if acc > 9223372036854775808 {
            proof {
                if all_digits(d) {
                    lemma_digits_grow(d, i - start + 1, d.len() as int);
                    assert(d.subrange(0, d.len() as int) =~= d);
                }
            }
            return None;
        }
        i = i + 1;
    }
    proof {
        assert(d.subrange(0, n - start) =~= d);
        assert(all_digits(d));
    }
    let v: i128 = if neg {
        0 - acc
    } else {
        acc
    };
    if v < -9223372036854775808 || v > 9223372036854775807 {
        None
    } else {
        Some(v as i64)
    }
}

/// Whether `a` and `b` agree on every field but the one that the additional
/// data kind `kind` fills.
pub open spec fn same_except(a: ContactInfo, b: ContactInfo, kind: Seq<char>) -> bool {
        &&& (kind != "id"@ ==> a.id == b.id)
        &&& (kind != "name"@ ==> a.name == b.name)
        &&& (kind != "family_name"@ ==> a.family_name == b.family_name)
        &&& (kind != "given_name"@ ==> a.given_name == b.given_name)
        &&& (kind != "tel"@ ==> a.tel == b.tel)
        &&& (kind != "email"@ ==> a.email == b.email)
        &&& (kind != "published"@ ==> a.published == b.published)
        &&& (kind != "updated"@ ==> a.updated == b.updated)
        &&& (kind != "bday"@ ==> a.bday == b.bday)
        &&& (kind != "anniversary"@ ==> a.anniversary == b.anniversary)
        &&& (kind != "phonetic_given_name"@ ==> a.phonetic_given_name == b.phonetic_given_name)
        &&& (kind != "phonetic_family_name"@ ==> a.phonetic_family_name == b.phonetic_family_name)
        &&& (kind != "ringtone"@ ==> a.ringtone == b.ringtone)
        &&& (kind != "gender_identity"@ ==> a.gender_identity == b.gender_identity)
        &&& (kind != "sex"@ ==> a.sex == b.sex)
        &&& (kind != "honorific_prefix"@ ==> a.honorific_prefix == b.honorific_prefix)
        &&& (kind != "additional_name"@ ==> a.additional_name == b.additional_name)
        &&& (kind != "honorific_suffix"@ ==> a.honorific_suffix == b.honorific_suffix)
        &&& (kind != "nickname"@ ==> a.nickname == b.nickname)
        &&& (kind != "category"@ ==> a.category == b.category)
        &&& (kind != "org"@ ==> a.org == b.org)
        &&& (kind != "job_title"@ ==> a.job_title == b.job_title)
        &&& (kind != "note"@ ==> a.note == b.note)
        &&& (kind != "groups"@ ==> a.groups == b.groups)
        &&& (kind != "ice_position"@ ==> a.ice_position == b.ice_position)
}

/// Whether a row of additional data of kind `kind` fills a field directly.
pub open spec fn is_plain_kind(kind: Seq<char>) -> bool {
    kind == "honorific_prefix"@ || kind == "additional_name"@ || kind == "honorific_suffix"@ || kind == "nickname"@ || kind == "category"@ || kind == "org"@ || kind == "job_title"@ || kind == "note"@ || kind == "groups"@ || kind == "phonetic_given_name"@ || kind == "phonetic_family_name"@ || kind == "ringtone"@ || kind == "gender_identity"@ || kind == "sex"@ || kind == "ice_position"@
}

/// What a row of kind `kind` with value `value` does to `c`, giving `r`: a
/// list field gets the value appended, a text field takes it, the emergency
/// position takes its number (0 when it is not one).
pub open spec fn applies_row(c: ContactInfo, kind: Seq<char>, value: Seq<char>, r: ContactInfo) -> bool {
    same_except(r, c, kind) && row_effect(c, kind, value, r)
}

/// The change that a row of kind `kind` makes, the kinds tried in order.
pub open spec fn row_effect(c: ContactInfo, kind: Seq<char>, value: Seq<char>, r: ContactInfo) -> bool {
    if kind == "honorific_prefix"@ {
        string_values(r.honorific_prefix) == push_opt(string_values(c.honorific_prefix), value)
    } else if kind == "additional_name"@ {
        string_values(r.additional_name) == push_opt(string_values(c.additional_name), value)
    } else if kind == "honorific_suffix"@ {
        string_values(r.honorific_suffix) == push_opt(string_values(c.honorific_suffix), value)
    } else if kind == "nickname"@ {
        string_values(r.nickname) == push_opt(string_values(c.nickname), value)
    } else if kind == "category"@ {
        string_values(r.category) == push_opt(string_values(c.category), value)
    } else if kind == "org"@ {
        string_values(r.org) == push_opt(string_values(c.org), value)
    } else if kind == "job_title"@ {
        string_values(r.job_title) == push_opt(string_values(c.job_title), value)
    } else if kind == "note"@ {
        string_values(r.note) == push_opt(string_values(c.note), value)
    } else if kind == "groups"@ {
        string_values(r.groups) == push_opt(string_values(c.groups), value)
    } else if kind == "phonetic_given_name"@ {
        r.phonetic_given_name@ == value
    } else if kind == "phonetic_family_name"@ {
        r.phonetic_family_name@ == value
    } else if kind == "ringtone"@ {
        r.ringtone@ == value
    } else if kind == "gender_identity"@ {
        r.gender_identity@ == value
    } else if kind == "sex"@ {
        r.sex@ == value
    } else if kind == "ice_position"@ {
        r.ice_position == match decimal_i64(value) {
            Some(v) => v,
            None => 0,
        }
    } else {
        true
    }
}

impl ContactInfo {
    /// Applies one row of additional data read back from the store. Returns
    /// the contact and whether the row was taken; rows of other kinds (the
    /// JSON-encoded addresses and urls among them) leave the contact as it
    /// was.
    pub fn apply_additional_row(self, data_type: String, value: String) -> (r: (ContactInfo, bool))
        ensures
            r.1 == is_plain_kind(data_type@),
            r.1 ==> applies_row(self, data_type@, value@, r.0),
            !r.1 ==> r.0 == self,
    {
        let mut c = self;
        if data_type == "honorific_prefix".to_string() {
            c.honorific_prefix = push_string(c.honorific_prefix, value);
            (c, true)
        } else if data_type == "additional_name".to_string() {
            c.additional_name = push_string(c.additional_name, value);
            (c, true)
        } else if data_type == "honorific_suffix".to_string() {
            c.honorific_suffix = push_string(c.honorific_suffix, value);
            (c, true)
        } else if data_type == "nickname".to_string() {
            c.nickname = push_string(c.nickname, value);
            (c, true)
        } else if data_type == "category".to_string() {
            c.category = push_string(c.category, value);
            (c, true)
        } else if data_type == "org".to_string() {
            c.org = push_string(c.org, value);
            (c, true)
        } else if data_type == "job_title".to_string() {
            c.job_title = push_string(c.job_title, value);
            (c, true)
        } else if data_type == "note".to_string() {
            c.note = push_string(c.note, value);
            (c, true)
        } else if data_type == "groups".to_string() {
            c.groups = push_string(c.groups, value);
            (c, true)
        } else if data_type == "phonetic_given_name".to_string() {
            c.phonetic_given_name = value;
            (c, true)
        } else if data_type == "phonetic_family_name".to_string() {
            c.phonetic_family_name = value;
            (c, true)
        } else if data_type == "ringtone".to_string() {
            c.ringtone = value;
            (c, true)
        } else if data_type == "gender_identity".to_string() {
            c.gender_identity = value;
            (c, true)
        } else if data_type == "sex".to_string() {
            c.sex = value;
            (c, true)
        } else if data_type == "ice_position".to_string() {
            c.ice_position = match parse_i64(value.as_str()) {
                Some(v) => v,
                None => 0,
            };
            (c, true)
        } else {
            (c, false)
        }
    }
}

} // verus!
