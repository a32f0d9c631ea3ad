//! Query logic of the contacts store: sort clauses, filter patterns, the
//! searchable form of multi-valued fields, and batching of results.
use vstd::prelude::*;
use vstd::string::StringExecFns;
use vstd::utf8::{decode_utf8, encode_utf8, is_char_boundary};

verus! {

/// The separator between values in a searchable multi-valued field.
pub const FIELD_SEPARATOR: &'static str = "\u{1E}";

/// Filters on phone numbers look at this many trailing digits at most.
pub const MIN_MATCH_DIGITS: usize = 7;

/// The column results are sorted by.
#[derive(Debug, Clone, Copy, PartialEq, Eq, Structural)]
pub enum SortOption {
    GivenName,
    FamilyName,
    Name,
}

/// The direction results are sorted in.
#[derive(Debug, Clone, Copy, PartialEq, Eq, Structural)]
pub enum Order {
    Ascending,
    Descending,
}

/// The field a search looks at.
#[derive(Debug, Clone, Copy, PartialEq, Eq, Structural)]
pub enum FilterByOption {
    Name,
    GivenName,
    FamilyName,
    Email,
    Tel,
    Category,
}

/// How a search compares the field with its value.
#[derive(Debug, Clone, Copy, PartialEq, Eq, Structural)]
pub enum FilterOption {
    StartsWith,
    FuzzyMatch,
    Contains,
    Equals,
    Match,
}

/// Why a query could not be built or a change was refused.
#[derive(Debug, Clone, PartialEq, Eq)]
pub enum ContactsError {
    InvalidFilterOption(String),
    InvalidContactId(String),
    IcePositionUsed(String),
}

/// The column that `o` sorts by.
pub open spec fn sort_column(o: SortOption) -> Seq<char> {
    match o {
        SortOption::GivenName => "given_name"@,
        SortOption::FamilyName => "family_name"@,
        SortOption::Name => "name"@,
    }
}

/// The SQL keyword of `o`.
pub open spec fn order_keyword(o: Order) -> Seq<char> {
    match o {
        Order::Ascending => "ASC"@,
        Order::Descending => "DESC"@,
    }
}

impl SortOption {
    /// The column this option sorts by.
    pub fn column(self) -> (r: String)
        ensures
            r@ == sort_column(self),
    {
        match self {
            SortOption::GivenName => "given_name".to_string(),
            SortOption::FamilyName => "family_name".to_string(),
            SortOption::Name => "name".to_string(),
        }
    }
}

impl Order {
    /// The SQL keyword of this order.
    pub fn keyword(self) -> (r: String)
        ensures
            r@ == order_keyword(self),
    {
        match self {
            Order::Ascending => "ASC".to_string(),
            Order::Descending => "DESC".to_string(),
        }
    }
}

/// The query that lists every contact id in the given order.
pub fn get_all_sql(sort_by: SortOption, order: Order) -> (r: String)
    ensures
        r@ == "SELECT contact_id FROM contact_main ORDER BY "@ + sort_column(sort_by)
            + " COLLATE NOCASE "@ + order_keyword(order),
{
    let mut sql = "SELECT contact_id FROM contact_main ORDER BY ".to_string();
    sql.append(sort_by.column().as_str());
    sql.append(" COLLATE NOCASE ");
    sql.append(order.keyword().as_str());
    sql
}

/// The start of the search query on field `f`, up to its `LIKE` clause.
pub open spec fn find_select(f: FilterByOption) -> Seq<char> {
    match f {
        FilterByOption::Name => "SELECT contact_id FROM contact_main WHERE name LIKE :value"@,
        FilterByOption::GivenName => "SELECT contact_id FROM contact_main WHERE given_name LIKE :value"@,
        FilterByOption::FamilyName => "SELECT contact_id FROM contact_main WHERE family_name LIKE :value"@,
        FilterByOption::Email => "SELECT contact_id FROM contact_main WHERE email LIKE :value"@,
        FilterByOption::Tel => "SELECT contact_id FROM contact_main WHERE tel_number LIKE :value"@,
        FilterByOption::Category => "SELECT contact_id FROM contact_additional WHERE data_type = 'category' AND value LIKE :value"@,
    }
}

/// The search query on field `f`: categories come unsorted, other fields
/// sorted as asked.
pub fn find_sql(filter_by: FilterByOption, sort_by: SortOption, order: Order) -> (r: String)
    ensures
        filter_by == FilterByOption::Category ==> r@ == find_select(filter_by),
        filter_by != FilterByOption::Category ==> r@ == find_select(filter_by) + " ORDER BY "@
            + sort_column(sort_by) + " COLLATE NOCASE "@ + order_keyword(order),
{
    let mut sql = match filter_by {
        FilterByOption::Name => "SELECT contact_id FROM contact_main WHERE name LIKE :value".to_string(),
        FilterByOption::GivenName => "SELECT contact_id FROM contact_main WHERE given_name LIKE :value".to_string(),
        FilterByOption::FamilyName => "SELECT contact_id FROM contact_main WHERE family_name LIKE :value".to_string(),
        FilterByOption::Email => "SELECT contact_id FROM contact_main WHERE email LIKE :value".to_string(),
        FilterByOption::Tel => "SELECT contact_id FROM contact_main WHERE tel_number LIKE :value".to_string(),
        FilterByOption::Category => "SELECT contact_id FROM contact_additional WHERE data_type = 'category' AND value LIKE :value".to_string(),
    };
    if filter_by != FilterByOption::Category {
        sql.append(" ORDER BY ");
        sql.append(sort_by.column().as_str());
        sql.append(" COLLATE NOCASE ");
        sql.append(order.keyword().as_str());
    }
    sql
}

/// The last `MIN_MATCH_DIGITS` bytes of `v` when it is longer than that:
/// `None` when they do not start on a character boundary.
pub open spec fn trailing_digits(v: Seq<char>) -> Option<Seq<char>> {
    let b = encode_utf8(v);
    if b.len() > MIN_MATCH_DIGITS {
        let start = b.len() - MIN_MATCH_DIGITS;
        if is_char_boundary(b, start) {
            Some(decode_utf8(b.subrange(start, b.len() as int)))
        } else {
            None
        }
    } else {
        Some(v)
    }
}

/// The trailing digits of `value`, as `trailing_digits` says.
fn tail_digits(value: &str) -> (r: Option<String>)
    ensures
        r matches Some(t) ==> trailing_digits(value@) == Some(t@),
        r is None ==> trailing_digits(value@) is None,
{
    let len = value.as_bytes().len();
    if len > MIN_MATCH_DIGITS {
        let start = len - MIN_MATCH_DIGITS;
        if value.is_char_boundary(start) {
            let (_, tail) = value.split_at(start);
            proof {
                vstd::utf8::encode_utf8_decode_utf8(tail@);
            }
            Some(tail.to_string())
        } else {
            None
        }
    } else {
        Some(value.to_string())
    }
}

/// Whether field `f` holds several values joined by the separator.
pub open spec fn is_multi_valued(f: FilterByOption) -> bool {
    f == FilterByOption::Email || f == FilterByOption::Tel
}

/// The `LIKE` pattern of a contacts search for `value`. Multi-valued fields
/// are stored as each value followed by the separator, after a leading one.
pub open spec fn find_pattern(f: FilterByOption, o: FilterOption, value: Seq<char>) -> Seq<char> {
    let sep = "\u{1E}"@;
    match o {
        FilterOption::StartsWith => if is_multi_valued(f) {
            "%"@ + sep + value + "%"@
        } else {
            value + "%"@
        },
        FilterOption::FuzzyMatch => match trailing_digits(value) {
            Some(t) => "%"@ + t + sep + "%"@,
            None => "%"@ + sep + "%"@,
        },
        FilterOption::Contains => "%"@ + value + "%"@,
        FilterOption::Equals => if is_multi_valued(f) {
            "%"@ + sep + value + sep + "%"@
        } else {
            value
        },
        FilterOption::Match => Seq::empty(),
    }
}

/// The `LIKE` pattern of a contacts search.
pub fn find_filter_value(filter_by: FilterByOption, filter_option: FilterOption, value: &str) -> (r:
    String)
    ensures
        r@ == find_pattern(filter_by, filter_option, value@),
{
    let multi = filter_by == FilterByOption::Email || filter_by == FilterByOption::Tel;
    match filter_option {
        FilterOption::StartsWith => {
            if multi {
                let mut s = "%".to_string();
                s.append(FIELD_SEPARATOR);
                s.append(value);
                s.append("%");
                s
            } else {
                let mut s = value.to_string();
                s.append("%");
                s
            }
        },
        FilterOption::FuzzyMatch => {
            let mut s = "%".to_string();
            match tail_digits(value) {
                Some(t) => s.append(t.as_str()),
                None => {},
            }
            s.append(FIELD_SEPARATOR);
            s.append("%");
            proof {
                assert(s@ =~= find_pattern(filter_by, filter_option, value@));
            }
            s
        },
        FilterOption::Contains => {
            let mut s = "%".to_string();
            s.append(value);
            s.append("%");
            s
        },
        FilterOption::Equals => {
            if multi {
                let mut s = "%".to_string();
                s.append(FIELD_SEPARATOR);
                s.append(value);
                s.append(FIELD_SEPARATOR);
                s.append("%");
                s
            } else {
                value.to_string()
            }
        },
        FilterOption::Match => String::new(),
    }
}

/// The `LIKE` pattern of a blocked-number search; `None` for `Match`, which
/// such a search does not offer.
pub open spec fn blocked_pattern(o: FilterOption, value: Seq<char>) -> Option<Seq<char>> {
    match o {
        FilterOption::StartsWith => Some(value + "%"@),
        FilterOption::FuzzyMatch => match trailing_digits(value) {
            Some(t) => Some("%"@ + t),
            None => Some("%"@ + value),
        },
        FilterOption::Contains => Some("%"@ + value + "%"@),
        FilterOption::Equals => Some(value),
        FilterOption::Match => None,
    }
}

/// The `LIKE` pattern of a blocked-number search; `Match` is refused.
pub fn blocked_number_filter(filter_option: FilterOption, value: &str) -> (r: Result<
    String,
    ContactsError,
>)
    ensures
        match blocked_pattern(filter_option, value@) {
            Some(p) => r matches Ok(s) && s@ == p,
            None => r matches Err(ContactsError::InvalidFilterOption(m)) && m@ == "Match"@,
        },
{
    match filter_option {
        FilterOption::StartsWith => {
            let mut s = value.to_string();
            s.append("%");
            Ok(s)
        },
        FilterOption::FuzzyMatch => {
            let mut s = "%".to_string();
            match tail_digits(value) {
                Some(t) => s.append(t.as_str()),
                None => s.append(value),
            }
            Ok(s)
        },
        FilterOption::Contains => {
            let mut s = "%".to_string();
            s.append(value);
            s.append("%");
            Ok(s)
        },
        FilterOption::Equals => Ok(value.to_string()),
        FilterOption::Match => Err(ContactsError::InvalidFilterOption("Match".to_string())),
    }
}

/// The searchable form of a multi-valued field: a separator, then each
/// value followed by a separator.
pub open spec fn searchable(values: Seq<Seq<char>>) -> Seq<char>
    decreases values.len(),
{
    if values.len() == 0 {
        "\u{1E}"@
    } else {
        searchable(values.drop_last()) + values.last() + "\u{1E}"@
    }
}

/// The searchable form of the values of a multi-valued field.
pub fn searchable_field(values: &Vec<String>) -> (r: String)
    ensures
        r@ == searchable(values@.map_values(|v: String| v@)),
{
    let ghost all = values@.map_values(|v: String| v@);
    let mut s = FIELD_SEPARATOR.to_string();
    let n = values.len();
    let mut i: usize = 0;
    while i < n
        invariant
            n == values@.len(),
            i <= n,
            all == values@.map_values(|v: String| v@),
            s@ == searchable(all.subrange(0, i as int)),
        decreases n - i,
    {
        s.append(values[i].as_str());
        s.append(FIELD_SEPARATOR);
        proof {
            assert(all.subrange(0, i + 1).drop_last() =~= all.subrange(0, i as int));
        }
        i = i + 1;
    }
    proof {
        assert(all.subrange(0, n as int) =~= all);
    }
    s
}

/// The placeholders of a list of `n` bound values: `?` repeated, joined by
/// commas.
pub open spec fn placeholders(n: nat) -> Seq<char>
    decreases n,
{
    if n <= 1 {
        "?"@
    } else {
        placeholders((n - 1) as nat) + ",?"@
    }
}

/// The query that counts how many of `n` contact ids exist.
pub fn count_ids_sql(n: usize) -> (r: String)
    ensures
        r@ == "SELECT COUNT(*) FROM contact_main WHERE contact_id in ("@ + placeholders(n as nat)
            + ")"@,
{
    let mut list = "?".to_string();
    let mut i: usize = 1;
    while i < n
        invariant
            1 <= i,
            i <= n || n == 0,
            n == 0 ==> i == 1,
            list@ == placeholders(i as nat),
        decreases n - i,
    {
        list.append(",?");
        i = i + 1;
    }
    proof {
        if n == 0 {
            assert(placeholders(1) == "?"@);
            assert(list@ == placeholders(0));
        }
    }
    let mut sql = "SELECT COUNT(*) FROM contact_main WHERE contact_id in (".to_string();
    sql.append(list.as_str());
    sql.append(")");
    sql
}

/// The values of `rows` that were read without error, in order.
pub open spec fn ok_values<R, E>(rows: Seq<Result<R, E>>) -> Seq<R>
    decreases rows.len(),
{
    if rows.len() == 0 {
        seq![]
    } else {
        match rows.last() {
            Ok(v) => ok_values(rows.drop_last()).push(v),
            Err(_) => ok_values(rows.drop_last()),
        }
    }
}

/// Keeps the rows that were read without error, in order.
pub fn rows_to_vec<R, E>(rows: Vec<Result<R, E>>) -> (r: Vec<R>)
    ensures
        r@ == ok_values(rows@),
{
    let ghost all = rows@;
    let mut rest = rows;
    let mut rev: Vec<R> = Vec::new();
    while rest.len() > 0
        invariant
            ok_values(all) == ok_values(rest@) + rev@.reverse(),
        decreases rest@.len(),
    {
        let ghost before = rest@;
        let row = rest.pop().unwrap();
        proof {
            assert(before.drop_last() =~= rest@);
        }
        match row {
            Ok(v) => {
                let ghost r0 = rev@;
                rev.push(v);
                proof {
                    assert(rev@.reverse() =~= seq![v] + r0.reverse());
                }
            },
            Err(_) => {},
        }
    }
    let mut out: Vec<R> = Vec::new();
    proof {
        assert(ok_values(rest@) =~= seq![]);
        assert(out@ + rev@.reverse() =~= ok_values(all));
    }
    while rev.len() > 0
        invariant
            out@ + rev@.reverse() == ok_values(all),
        decreases rev@.len(),
    {
        let ghost before = rev@;
        let x = rev.pop().unwrap();
        proof {
            assert(before.reverse() =~= seq![x] + rev@.reverse());
        }
        let ghost o0 = out@;
        out.push(x);
        proof {
            assert(out@ + rev@.reverse() =~= o0 + (seq![x] + rev@.reverse()));
        }
    }
    proof {
        assert(out@ =~= out@ + rev@.reverse());
    }
    out
}

/// The statements that create version 1 of the contacts schema, in order.
pub open spec fn schema_v1() -> Seq<Seq<char>> {
    seq![
        "CREATE TABLE IF NOT EXISTS contact_main (contact_id TEXT NOT NULL PRIMARY KEY, name TEXT DEFAULT (''), family_name TEXT DEFAULT (''), given_name TEXT DEFAULT (''), tel_number TEXT DEFAULT (''), tel_json TEXT DEFAULT (''), email TEXT DEFAULT (''), email_json TEXT DEFAULT (''), photo_type TEXT DEFAULT (''), photo_blob BLOB DEFAULT (x''), published INTEGER DEFAULT (0), updated INTEGER DEFAULT (0), bday INTEGER DEFAULT (0), anniversary INTEGER DEFAULT (0))"@,
        "CREATE INDEX idx_name ON contact_main(name)"@,
        "CREATE INDEX idx_famil_name ON contact_main(family_name)"@,
        "CREATE INDEX idx_given_name ON contact_main(given_name)"@,
        "CREATE INDEX idx_tel_number ON contact_main(tel_number)"@,
        "CREATE INDEX idx_email ON contact_main(email)"@,
        "CREATE TABLE IF NOT EXISTS contact_additional (contact_id TEXT NOT NULL, data_type TEXT NOT NULL, value TEXT DEFAULT '', FOREIGN KEY(contact_id) REFERENCES contact_main(contact_id))"@,
        "CREATE INDEX idx_additional ON contact_additional(contact_id)"@,
        "CREATE TABLE IF NOT EXISTS blocked_numbers (number TEXT NOT NULL UNIQUE)"@,
        "CREATE TABLE IF NOT EXISTS speed_dials (dial_key TEXT NOT NULL UNIQUE, tel TEXT NOT NULL, contact_id TEXT)"@,
        "CREATE TABLE IF NOT EXISTS groups (id TEXT PRIMARY KEY, name TEXT NOT NULL UNIQUE)"@,
        "CREATE TABLE IF NOT EXISTS group_contacts (id INTEGER PRIMARY KEY ASC, group_id TEXT NOT NULL, contact_id TEXT NOT NULL, FOREIGN KEY(group_id) REFERENCES groups(id), FOREIGN KEY(contact_id) REFERENCES contact_main(contact_id))"@,
    ]
}

/// Upgrades the contacts database schema; only the upgrade from version 0
/// to version 1 is known.
pub struct ContactsSchemaManager {}

impl ContactsSchemaManager {
    /// The statements that upgrade the schema from version `from` to `to`,
    /// in order; `None` for an upgrade this schema does not know.
    pub fn upgrade_statements(&self, from: u32, to: u32) -> (r: Option<Vec<String>>)
        ensures
            match r {
                Some(v) => from == 0 && to == 1 && v@.map_values(|s: String| s@) == schema_v1(),
                None => !(from == 0 && to == 1),
            },
    {
        if !(from == 0 && to == 1) {
            return None;
        }
        let v = schema_v1_statements();
        Some(v)
    }
}

fn schema_v1_statements() -> (v: Vec<String>)
    ensures
        v@.map_values(|s: String| s@) == schema_v1(),
{
    let mut v: Vec<String> = Vec::new();
    v.push("CREATE TABLE IF NOT EXISTS contact_main (contact_id TEXT NOT NULL PRIMARY KEY, name TEXT DEFAULT (''), family_name TEXT DEFAULT (''), given_name TEXT DEFAULT (''), tel_number TEXT DEFAULT (''), tel_json TEXT DEFAULT (''), email TEXT DEFAULT (''), email_json TEXT DEFAULT (''), photo_type TEXT DEFAULT (''), photo_blob BLOB DEFAULT (x''), published INTEGER DEFAULT (0), updated INTEGER DEFAULT (0), bday INTEGER DEFAULT (0), anniversary INTEGER DEFAULT (0))".to_string());
    v.push("CREATE INDEX idx_name ON contact_main(name)".to_string());
    v.push("CREATE INDEX idx_famil_name ON contact_main(family_name)".to_string());
    v.push("CREATE INDEX idx_given_name ON contact_main(given_name)".to_string());
    v.push("CREATE INDEX idx_tel_number ON contact_main(tel_number)".to_string());
    v.push("CREATE INDEX idx_email ON contact_main(email)".to_string());
    v.push("CREATE TABLE IF NOT EXISTS contact_additional (contact_id TEXT NOT NULL, data_type TEXT NOT NULL, value TEXT DEFAULT '', FOREIGN KEY(contact_id) REFERENCES contact_main(contact_id))".to_string());
    v.push("CREATE INDEX idx_additional ON contact_additional(contact_id)".to_string());
    v.push("CREATE TABLE IF NOT EXISTS blocked_numbers (number TEXT NOT NULL UNIQUE)".to_string());
    v.push("CREATE TABLE IF NOT EXISTS speed_dials (dial_key TEXT NOT NULL UNIQUE, tel TEXT NOT NULL, contact_id TEXT)".to_string());
    v.push("CREATE TABLE IF NOT EXISTS groups (id TEXT PRIMARY KEY, name TEXT NOT NULL UNIQUE)".to_string());
    v.push("CREATE TABLE IF NOT EXISTS group_contacts (id INTEGER PRIMARY KEY ASC, group_id TEXT NOT NULL, contact_id TEXT NOT NULL, FOREIGN KEY(group_id) REFERENCES groups(id), FOREIGN KEY(contact_id) REFERENCES contact_main(contact_id))".to_string());
    proof {
        assert(v@.map_values(|s: String| s@) =~= schema_v1());
    }
    v
}

/// How many results a batch of `batch_size` holds at most, given `remaining`
/// results: all of them when the size is not positive.
pub open spec fn batch_limit(batch_size: i64, remaining: int) -> int {
    if batch_size <= 0 || batch_size >= remaining {
        remaining
    } else {
        batch_size as int
    }
}

/// Hands out the contact ids of a query in batches.
pub struct ContactDbCursor {
    ids: Vec<String>,
    pos: usize,
    batch_size: i64,
}

impl ContactDbCursor {
    /// The ids not handed out yet.
    pub closed spec fn remaining(&self) -> Seq<Seq<char>> {
        self.ids@.map_values(|s: String| s@).subrange(self.pos as int, self.ids@.len() as int)
    }

    pub closed spec fn batch_size(&self) -> i64 {
        self.batch_size
    }

    pub closed spec fn wf(&self) -> bool {
        self.pos <= self.ids@.len()
    }

    /// A cursor over `ids` that hands out `batch_size` of them at a time, or
    /// all of them when `batch_size` is not positive.
    pub fn new(batch_size: i64, ids: Vec<String>) -> (r: Self)
        ensures
            r.wf(),
            r.batch_size() == batch_size,
            r.remaining() == ids@.map_values(|s: String| s@),
    {
        let r = ContactDbCursor { ids, pos: 0, batch_size };
        proof {
            assert(r.remaining() =~= ids@.map_values(|s: String| s@));
        }
        r
    }

    /// The next batch: the first ids not handed out yet, as many as the batch
    /// size allows. Empty once every id was handed out.
    pub fn next_batch(&mut self) -> (r: Vec<String>)
        requires
            old(self).wf(),
        ensures
            final(self).wf(),
            final(self).batch_size() == old(self).batch_size(),
            ({
                let k = batch_limit(old(self).batch_size(), old(self).remaining().len() as int);
                &&& r@.map_values(|s: String| s@) == old(self).remaining().subrange(0, k)
                &&& final(self).remaining() == old(self).remaining().subrange(
                    k,
                    old(self).remaining().len() as int,
                )
            }),
    {
        let n = self.ids.len();
        let remaining = n - self.pos;
        let take: usize = if self.batch_size <= 0 || self.batch_size as u64 >= remaining as u64 {
            remaining
        } else {
            self.batch_size as usize
        };
        let ghost all = self.ids@.map_values(|s: String| s@);
        let start = self.pos;
        let mut out: Vec<String> = Vec::new();
        let mut i: usize = 0;
        while i < take
            invariant
                start == self.pos,
                n == self.ids@.len(),
                start + take <= n,
                i <= take,
                all == self.ids@.map_values(|s: String| s@),
                out@.map_values(|s: String| s@) == all.subrange(start as int, start + i),
            decreases take - i,
        {
            let ghost o0 = out@;
            let c = self.ids[start + i].clone();
            out.push(c);
            proof {
                assert(c@ == all[start + i]);
                assert(out@.map_values(|s: String| s@) =~= o0.map_values(|s: String| s@).push(c@));
                assert(out@.map_values(|s: String| s@) =~= all.subrange(start as int, start + i + 1));
            }
            i = i + 1;
        }
        self.pos = start + take;
        proof {
            assert(take as int == batch_limit(self.batch_size, n - start));
            assert(out@.map_values(|s: String| s@) =~= old(self).remaining().subrange(0, take as int));
            assert(self.remaining() =~= old(self).remaining().subrange(take as int, old(self).remaining().len() as int));
        }
        out
    }
}

/// How to store an emergency position.
#[derive(Debug, Clone, Copy, PartialEq, Eq, Structural)]
pub enum IceAction {
    /// The contact has a position already: replace it.
    Update,
    /// The contact has none: add one.
    Insert,
}

/// The decision of setting an emergency position, from how many contacts
/// have the id, how many hold the position already, and how many positions
/// the contact has: the contact must exist once and the position be free.
pub fn ice_action(contact_count: i64, position_count: i64, item_count: i64) -> (r: Result<
    IceAction,
    ContactsError,
>)
    ensures
        contact_count != 1 ==> r matches Err(ContactsError::InvalidContactId(_)),
        contact_count == 1 && position_count != 0 ==> r matches Err(
            ContactsError::IcePositionUsed(_),
        ),
        contact_count == 1 && position_count == 0 && item_count != 0 ==> r == Ok::<
            IceAction,
            ContactsError,
        >(IceAction::Update),
        contact_count == 1 && position_count == 0 && item_count == 0 ==> r == Ok::<
            IceAction,
            ContactsError,
        >(IceAction::Insert),
{
    if contact_count != 1 {
        return Err(ContactsError::InvalidContactId("Try to set_ice with invalid contact id".to_string()));
    }
    if position_count != 0 {
        return Err(ContactsError::IcePositionUsed("Try to set_ice with position already used".to_string()));
    }
    if item_count != 0 {
        Ok(IceAction::Update)
    } else {
        Ok(IceAction::Insert)
    }
}

} // verus!
