//! The byte-level grammar of the coordinate file: a JSON array of objects
//! whose members are numbers. The numbers' text is handed out as bytes;
//! turning it into floating point is left to the caller.
use vstd::prelude::*;

verus! {

/// A document that could not be read, and why.
#[derive(Debug, PartialEq)]
pub struct DeserializationError(pub ErrorKind);

/// Why a document could not be read.
#[derive(Debug, PartialEq)]
pub enum ErrorKind {
    /// Reading the input failed; the message of the failure.
    Io(String),
    /// The input ended inside a value.
    UnexpectedEnd,
    /// A value did not start with the byte it must start with.
    UnexpectedOpening(u8),
    /// A byte between array items that is neither a separator nor whitespace.
    UnexpectedByte(u8),
    /// An object member without a `:`.
    InvalidJson,
    /// A member's value is not a number.
    InvalidFloat,
    /// A whole document is not framed as `[{` ... `}]`.
    UnexpectedFraming,
    /// A coordinate object lacks one of its four members.
    MissingMember(CoordField),
}

/// The four members of a coordinate pair object.
#[derive(Clone, Copy, Debug, PartialEq, Eq, Structural)]
pub enum CoordField {
    Lat0,
    Lon0,
    Lat1,
    Lon1,
}

/// ASCII whitespace: space, tab, line feed, form feed, carriage return.
pub open spec fn is_space(b: u8) -> bool {
    b == 0x20 || b == 0x09 || b == 0x0a || b == 0x0c || b == 0x0d
}

/// `s` without its leading whitespace.
pub open spec fn trim_start(s: Seq<u8>) -> Seq<u8>
    decreases s.len(),
{
    if s.len() > 0 && is_space(s[0]) {
        trim_start(s.drop_first())
    } else {
        s
    }
}

/// `s` without its trailing whitespace.
pub open spec fn trim_end(s: Seq<u8>) -> Seq<u8>
    decreases s.len(),
{
    if s.len() > 0 && is_space(s.last()) {
        trim_end(s.drop_last())
    } else {
        s
    }
}

/// `s` without whitespace at either end.
pub open spec fn trim(s: Seq<u8>) -> Seq<u8> {
    trim_end(trim_start(s))
}

/// Index of the first `b` in `s`, or -1 when there is none.
pub open spec fn first_index(s: Seq<u8>, b: u8) -> int
    decreases s.len(),
{
    if s.len() == 0 {
        -1
    } else if s[0] == b {
        0
    } else {
        let k = first_index(s.drop_first(), b);
        if k < 0 {
            -1
        } else {
            k + 1
        }
    }
}

/// The text of a quoted member name: `"`, then `lat` or `lon`, a digit, `"`.
pub open spec fn quoted(name: Seq<u8>) -> Seq<u8> {
    seq![0x22u8] + name + seq![0x22u8]
}

/// The member that a (trimmed) key names, if any.
pub open spec fn field_of_key(key: Seq<u8>) -> Option<CoordField> {
    if key == quoted(seq![0x6cu8, 0x61, 0x74, 0x30]) {
        Some(CoordField::Lat0)
    } else if key == quoted(seq![0x6cu8, 0x6f, 0x6e, 0x30]) {
        Some(CoordField::Lon0)
    } else if key == quoted(seq![0x6cu8, 0x61, 0x74, 0x31]) {
        Some(CoordField::Lat1)
    } else if key == quoted(seq![0x6cu8, 0x6f, 0x6e, 0x31]) {
        Some(CoordField::Lon1)
    } else {
        None
    }
}

/// The members of an object's body, in order: each runs to its first `:`
/// for the key, then to the next `,` (or the end) for the value; both are
/// trimmed. `None` when a member has no `:`.
pub open spec fn members(body: Seq<u8>) -> Option<Seq<(Option<CoordField>, Seq<u8>)>>
    decreases body.len(),
{
    if body.len() == 0 {
        Some(seq![])
    } else {
        let c = first_index(body, 0x3a);
        if c < 0 || c >= body.len() {
            None
        } else {
            let rest = body.subrange(c + 1, body.len() as int);
            let m = first_index(rest, 0x2c);
            let value_end = if m < 0 || m >= rest.len() { rest.len() as int } else { m };
            let next = if m < 0 || m >= rest.len() { rest.subrange(rest.len() as int, rest.len() as int) } else {
                rest.subrange(m + 1, rest.len() as int)
            };
            let member = (field_of_key(trim(body.subrange(0, c))), trim(rest.subrange(0, value_end)));
            match members(next) {
                Some(ms) => Some(seq![member] + ms),
                None => None,
            }
        }
    }
}

proof fn lemma_first_index(s: Seq<u8>, b: u8)
    ensures
        -1 <= first_index(s, b) < s.len(),
        first_index(s, b) >= 0 ==> s[first_index(s, b)] == b,
        forall|j: int| 0 <= j < first_index(s, b) ==> s[j] != b,
        first_index(s, b) < 0 ==> forall|j: int| 0 <= j < s.len() ==> s[j] != b,
    decreases s.len(),
{
    if s.len() > 0 && s[0] != b {
        lemma_first_index(s.drop_first(), b);
        assert forall|j: int| 0 < j < s.len() implies s[j] == s.drop_first()[j - 1] by {}
    }
}

/// The first index is the position of a `b` with none before it.
proof fn lemma_first_index_at(s: Seq<u8>, b: u8, i: int)
    requires
        0 <= i <= s.len(),
        forall|j: int| 0 <= j < i ==> s[j] != b,
        i < s.len() ==> s[i] == b,
    ensures
        first_index(s, b) == if i < s.len() { i } else { -1 },
{
    lemma_first_index(s, b);
}

proof fn lemma_trim_start_at(s: Seq<u8>, k: int)
    requires
        0 <= k <= s.len(),
        forall|j: int| 0 <= j < k ==> is_space(#[trigger] s[j]),
        k < s.len() ==> !is_space(s[k]),
    ensures
        trim_start(s) == s.subrange(k, s.len() as int),
    decreases s.len(),
{
    if k == 0 {
        assert(s.subrange(0, s.len() as int) =~= s);
    } else {
        let t = s.drop_first();
        assert forall|j: int| 0 <= j < k - 1 implies is_space(#[trigger] t[j]) by {
            assert(t[j] == s[j + 1]);
        }
        lemma_trim_start_at(t, k - 1);
        assert(t.subrange(k - 1, t.len() as int) =~= s.subrange(k, s.len() as int));
    }
}

proof fn lemma_trim_end_at(s: Seq<u8>, k: int)
    requires
        0 <= k <= s.len(),
        forall|j: int| k <= j < s.len() ==> is_space(#[trigger] s[j]),
        k > 0 ==> !is_space(s[k - 1]),
    ensures
        trim_end(s) == s.subrange(0, k),
    decreases s.len(),
{
    if k == s.len() {
        assert(s.subrange(0, k) =~= s);
    } else {
        let t = s.drop_last();
        assert forall|j: int| k <= j < t.len() implies is_space(#[trigger] t[j]) by {
            assert(t[j] == s[j]);
        }
        lemma_trim_end_at(t, k);
        assert(t.subrange(0, k) =~= s.subrange(0, k));
    }
}

/// A copy of `buf[from..to]` without whitespace at either end.
fn trimmed_copy(buf: &[u8], from: usize, to: usize) -> (r: Vec<u8>)
    requires
        from <= to <= buf@.len(),
    ensures
        r@ == trim(buf@.subrange(from as int, to as int)),
{
    let mut a = from;
    while a < to && is_space_byte(buf[a])
        invariant
            from <= a <= to <= buf@.len(),
            forall|j: int| from <= j < a ==> is_space(#[trigger] buf@[j]),
        decreases to - a,
    {
        a = a + 1;
    }
    let mut b = to;
    while b > a && is_space_byte(buf[b - 1])
        invariant
            from <= a <= b <= to <= buf@.len(),
            forall|j: int| b <= j < to ==> is_space(#[trigger] buf@[j]),
        decreases b - a,
    {
        b = b - 1;
    }
    let mut r: Vec<u8> = Vec::new();
    let mut i = a;
    while i < b
        invariant
            a <= i <= b <= buf@.len(),
            r@ == buf@.subrange(a as int, i as int),
        decreases b - i,
    {
        r.push(buf[i]);
        i = i + 1;
        assert(r@ =~= buf@.subrange(a as int, i as int));
    }
    proof {
        let s = buf@.subrange(from as int, to as int);
        assert forall|j: int| 0 <= j < a - from implies is_space(#[trigger] s[j]) by {
            assert(s[j] == buf@[from + j]);
        }
        lemma_trim_start_at(s, a - from);
        let t = s.subrange(a - from, s.len() as int);
        assert(t =~= buf@.subrange(a as int, to as int));
        assert forall|j: int| b - a <= j < t.len() implies is_space(#[trigger] t[j]) by {
            assert(t[j] == buf@[a + j]);
        }
        lemma_trim_end_at(t, b - a);
        assert(t.subrange(0, b - a) =~= buf@.subrange(a as int, b as int));
    }
    r
}

/// Whether `b` is ASCII whitespace.
pub fn is_space_byte(b: u8) -> (r: bool)
    ensures
        r == is_space(b),
{
    b == 0x20 || b == 0x09 || b == 0x0a || b == 0x0c || b == 0x0d
}

/// Index of the first `b` in `buf[from..to]`, counted from the start of
/// `buf`, or `to` when there is none.
fn find_byte(buf: &[u8], from: usize, to: usize, b: u8) -> (r: usize)
    requires
        from <= to <= buf@.len(),
    ensures
        from <= r <= to,
        first_index(buf@.subrange(from as int, to as int), b) == if r < to {
            r - from
        } else {
            -1
        },
{
    let mut i = from;
    while i < to && buf[i] != b
        invariant
            from <= i <= to <= buf@.len(),
            forall|j: int| from <= j < i ==> buf@[j] != b,
        decreases to - i,
    {
        i = i + 1;
    }
    proof {
        let s = buf@.subrange(from as int, to as int);
        assert forall|j: int| 0 <= j < i - from implies s[j] != b by {
            assert(s[j] == buf@[from + j]);
        }
        lemma_first_index_at(s, b, i - from);
    }
    i
}

/// The member that a trimmed key names, if any.
pub fn key_field(key: &Vec<u8>) -> (r: Option<CoordField>)
    ensures
        r == field_of_key(key@),
{
    let ghost k = key@;
    if key.len() != 6 || key[0] != 0x22 || key[1] != 0x6c || key[5] != 0x22 {
        proof {
            assert(k.len() != 6 || k[0] != 0x22 || k[1] != 0x6c || k[5] != 0x22);
            assert(quoted(seq![0x6cu8, 0x61, 0x74, 0x30]).len() == 6);
            assert(quoted(seq![0x6cu8, 0x61, 0x74, 0x30])[0] == 0x22);
            assert(quoted(seq![0x6cu8, 0x61, 0x74, 0x30])[1] == 0x6c);
            assert(quoted(seq![0x6cu8, 0x61, 0x74, 0x30])[5] == 0x22);
            assert(quoted(seq![0x6cu8, 0x6f, 0x6e, 0x30])[1] == 0x6c);
            assert(quoted(seq![0x6cu8, 0x6f, 0x6e, 0x30])[5] == 0x22);
            assert(quoted(seq![0x6cu8, 0x61, 0x74, 0x31])[1] == 0x6c);
            assert(quoted(seq![0x6cu8, 0x61, 0x74, 0x31])[5] == 0x22);
            assert(quoted(seq![0x6cu8, 0x6f, 0x6e, 0x31])[1] == 0x6c);
            assert(quoted(seq![0x6cu8, 0x6f, 0x6e, 0x31])[5] == 0x22);
        }
        return None;
    }
    let lat = key[2] == 0x61 && key[3] == 0x74;
    let lon = key[2] == 0x6f && key[3] == 0x6e;
    let r = if lat && key[4] == 0x30 {
        Some(CoordField::Lat0)
    } else if lon && key[4] == 0x30 {
        Some(CoordField::Lon0)
    } else if lat && key[4] == 0x31 {
        Some(CoordField::Lat1)
    } else if lon && key[4] == 0x31 {
        Some(CoordField::Lon1)
    } else {
        None
    };
    proof {
        let names = seq![
            seq![0x6cu8, 0x61, 0x74, 0x30],
            seq![0x6cu8, 0x6f, 0x6e, 0x30],
            seq![0x6cu8, 0x61, 0x74, 0x31],
            seq![0x6cu8, 0x6f, 0x6e, 0x31],
        ];
        assert forall|n: int| 0 <= n < 4 implies (k == quoted(#[trigger] names[n])) == (k[2]
            == names[n][1] && k[3] == names[n][2] && k[4] == names[n][3]) by {
            let q = quoted(names[n]);
            assert(q.len() == 6 && q[0] == 0x22 && q[1] == 0x6c && q[5] == 0x22);
            assert(q[2] == names[n][1] && q[3] == names[n][2] && q[4] == names[n][3]);
            if k[2] == names[n][1] && k[3] == names[n][2] && k[4] == names[n][3] {
                assert(k =~= q);
            }
        }
        assert(names[0] == seq![0x6cu8, 0x61, 0x74, 0x30]);
        assert(names[1] == seq![0x6cu8, 0x6f, 0x6e, 0x30]);
        assert(names[2] == seq![0x6cu8, 0x61, 0x74, 0x31]);
        assert(names[3] == seq![0x6cu8, 0x6f, 0x6e, 0x31]);
    }
    r
}

/// One member of a coordinate object: the member its key names, if any,
/// and the trimmed text of its value.
pub struct FieldText {
    pub field: Option<CoordField>,
    pub value: Vec<u8>,
}

/// The members as the contracts see them.
pub open spec fn texts_view(v: Seq<FieldText>) -> Seq<(Option<CoordField>, Seq<u8>)> {
    v.map_values(|f: FieldText| (f.field, f.value@))
}

/// `acc` followed by the members of the rest, or `None` if the rest has none.
pub open spec fn prepend(
    acc: Seq<(Option<CoordField>, Seq<u8>)>,
    rest: Option<Seq<(Option<CoordField>, Seq<u8>)>>,
) -> Option<Seq<(Option<CoordField>, Seq<u8>)>> {
    match rest {
        Some(ms) => Some(acc + ms),
        None => None,
    }
}

/// An object as read up to and including its closing `}`: it must open with
/// `{` and close with `}`, and its body splits into members.
pub open spec fn object_members(buf: Seq<u8>) -> Result<
    Seq<(Option<CoordField>, Seq<u8>)>,
    DeserializationError,
> {
    if buf.len() == 0 {
        Err(DeserializationError(ErrorKind::UnexpectedEnd))
    } else if buf[0] != 0x7b {
        Err(DeserializationError(ErrorKind::UnexpectedOpening(buf[0])))
    } else if buf.len() < 2 || buf.last() != 0x7d {
        Err(DeserializationError(ErrorKind::UnexpectedEnd))
    } else {
        match members(buf.subrange(1, buf.len() - 1)) {
            Some(ms) => Ok(ms),
            None => Err(DeserializationError(ErrorKind::InvalidJson)),
        }
    }
}

/// Splits one object, from its `{` through its `}`, into its members.
pub fn split_object(buf: &[u8]) -> (r: Result<Vec<FieldText>, DeserializationError>)
    ensures
        match r {
            Ok(v) => object_members(buf@) == Ok::<_, DeserializationError>(texts_view(v@)),
            Err(e) => object_members(buf@) == Err::<Seq<(Option<CoordField>, Seq<u8>)>, _>(e),
        },
{
    if buf.len() == 0 {
        return Err(DeserializationError(ErrorKind::UnexpectedEnd));
    }
    if buf[0] != 0x7b {
        return Err(DeserializationError(ErrorKind::UnexpectedOpening(buf[0])));
    }
    if buf.len() < 2 || buf[buf.len() - 1] != 0x7d {
        return Err(DeserializationError(ErrorKind::UnexpectedEnd));
    }
    let end = buf.len() - 1;
    let ghost body = buf@.subrange(1, end as int);
    let mut out: Vec<FieldText> = Vec::new();
    let mut p: usize = 1;
    proof {
        assert(buf@.subrange(1, end as int) == body);
        assert(texts_view(out@) =~= seq![]);
        assert(seq![] + members(body).unwrap_or(seq![]) =~= members(body).unwrap_or(seq![]));
    }
    while p < end
        invariant
            1 <= p <= end,
            end + 1 == buf@.len(),
            buf@[0] == 0x7b,
            buf@[end as int] == 0x7d,
            body == buf@.subrange(1, end as int),
            members(body) == prepend(texts_view(out@), members(buf@.subrange(p as int, end as int))),
        decreases end - p,
    {
        let ghost s = buf@.subrange(p as int, end as int);
        let c = find_byte(buf, p, end, 0x3a);
        if c == end {
            proof {
                assert(s.len() > 0);
                assert(members(s) == None::<Seq<(Option<CoordField>, Seq<u8>)>>);
                assert(buf@.last() == 0x7d);
                assert(members(body) == None::<Seq<(Option<CoordField>, Seq<u8>)>>);
            }
            return Err(DeserializationError(ErrorKind::InvalidJson));
        }
        let key = trimmed_copy(buf, p, c);
        let field = key_field(&key);
        let m = find_byte(buf, c + 1, end, 0x2c);
        let value = trimmed_copy(buf, c + 1, m);
        let ghost before = out@;
        let ghost member = (field, value@);
        out.push(FieldText { field, value });
        let next_p = if m < end { m + 1 } else { end };
        proof {
            let rest = s.subrange(c - p + 1, s.len() as int);
            assert(rest =~= buf@.subrange(c + 1, end as int));
            assert(s.subrange(0, c - p) =~= buf@.subrange(p as int, c as int));
            let value_end = if m < end { m - (c + 1) } else { rest.len() as int };
            assert(rest.subrange(0, value_end) =~= buf@.subrange(c + 1, m as int));
            let next = if m < end { rest.subrange(m - (c + 1) + 1, rest.len() as int) } else {
                rest.subrange(rest.len() as int, rest.len() as int)
            };
            assert(next =~= buf@.subrange(next_p as int, end as int));
            assert(texts_view(out@) =~= texts_view(before).push(member));
            match members(next) {
                Some(ms) => {
                    assert(texts_view(before) + (seq![member] + ms) =~= texts_view(out@) + ms);
                },
                None => {},
            }
        }
        p = next_p;
    }
    proof {
        assert(texts_view(out@) + seq![] =~= texts_view(out@));
    }
    Ok(out)
}

/// What a byte read after an array item means.
#[derive(Clone, Copy, Debug, PartialEq, Eq, Structural)]
pub enum ArrayStep {
    /// `,`: another item follows.
    NextItem,
    /// `]`: the array is closed.
    End,
    /// Whitespace: read on.
    Skip,
}

/// The meaning of byte `b` after an array item.
pub open spec fn step_after_item(b: u8) -> Result<ArrayStep, DeserializationError> {
    if b == 0x2c {
        Ok(ArrayStep::NextItem)
    } else if b == 0x5d {
        Ok(ArrayStep::End)
    } else if is_space(b) {
        Ok(ArrayStep::Skip)
    } else {
        Err(DeserializationError(ErrorKind::UnexpectedByte(b)))
    }
}

/// Checks the first byte of an array.
pub fn array_opening(b: u8) -> (r: Result<(), DeserializationError>)
    ensures
        r == if b == 0x5b {
            Ok::<(), DeserializationError>(())
        } else {
            Err(DeserializationError(ErrorKind::UnexpectedOpening(b)))
        },
{
    if b == 0x5b {
        Ok(())
    } else {
        Err(DeserializationError(ErrorKind::UnexpectedOpening(b)))
    }
}

/// Decides what byte `b`, read after an array item, means.
pub fn after_item(b: u8) -> (r: Result<ArrayStep, DeserializationError>)
    ensures
        r == step_after_item(b),
{
    if b == 0x2c {
        Ok(ArrayStep::NextItem)
    } else if b == 0x5d {
        Ok(ArrayStep::End)
    } else if is_space_byte(b) {
        Ok(ArrayStep::Skip)
    } else {
        Err(DeserializationError(ErrorKind::UnexpectedByte(b)))
    }
}

/// Whether some member names `f`.
pub open spec fn has_field(fields: Seq<FieldText>, f: CoordField) -> bool {
    exists|i: int| 0 <= i < fields.len() && fields[i].field == Some(f)
}

/// The first of lat0, lon0, lat1, lon1 that no member names.
pub open spec fn missing_field(fields: Seq<FieldText>) -> Option<CoordField> {
    if !has_field(fields, CoordField::Lat0) {
        Some(CoordField::Lat0)
    } else if !has_field(fields, CoordField::Lon0) {
        Some(CoordField::Lon0)
    } else if !has_field(fields, CoordField::Lat1) {
        Some(CoordField::Lat1)
    } else if !has_field(fields, CoordField::Lon1) {
        Some(CoordField::Lon1)
    } else {
        None
    }
}

/// Index of the last member that names `f`, which is the one whose value
/// counts.
pub fn last_field(fields: &Vec<FieldText>, f: CoordField) -> (r: Option<usize>)
    ensures
        match r {
            Some(i) => i < fields@.len() && fields@[i as int].field == Some(f) && forall|j: int|
                i < j < fields@.len() ==> fields@[j].field != Some(f),
            None => !has_field(fields@, f),
        },
{
    let mut j: usize = fields.len();
    while j > 0
        invariant
            j <= fields@.len(),
            forall|k: int| j <= k < fields@.len() ==> fields@[k].field != Some(f),
        decreases j,
    {
        if fields[j - 1].field == Some(f) {
            return Some(j - 1);
        }
        j = j - 1;
    }
    None
}

/// The first of lat0, lon0, lat1, lon1 that no member names, if any.
pub fn first_missing(fields: &Vec<FieldText>) -> (r: Option<CoordField>)
    ensures
        r == missing_field(fields@),
{
    if last_field(fields, CoordField::Lat0).is_none() {
        Some(CoordField::Lat0)
    } else if last_field(fields, CoordField::Lon0).is_none() {
        Some(CoordField::Lon0)
    } else if last_field(fields, CoordField::Lat1).is_none() {
        Some(CoordField::Lat1)
    } else if last_field(fields, CoordField::Lon1).is_none() {
        Some(CoordField::Lon1)
    } else {
        None
    }
}

/// A copy of `buf[from..to]`.
fn copy_range(buf: &[u8], from: usize, to: usize) -> (r: Vec<u8>)
    requires
        from <= to <= buf@.len(),
    ensures
        r@ == buf@.subrange(from as int, to as int),
{
    let mut r: Vec<u8> = Vec::new();
    let mut i = from;
    while i < to
        invariant
            from <= i <= to <= buf@.len(),
            r@ == buf@.subrange(from as int, i as int),
        decreases to - i,
    {
        r.push(buf[i]);
        i = i + 1;
        assert(r@ =~= buf@.subrange(from as int, i as int));
    }
    r
}

/// Whether the record separator `},{` starts at `i`.
pub open spec fn separator_at(s: Seq<u8>, i: int) -> bool {
    0 <= i && i + 3 <= s.len() && s[i] == 0x7d && s[i + 1] == 0x2c && s[i + 2] == 0x7b
}

/// Index of the first record separator in `s`, or -1 when there is none.
pub open spec fn first_separator(s: Seq<u8>) -> int
    decreases s.len(),
{
    if s.len() < 3 {
        -1
    } else if separator_at(s, 0) {
        0
    } else {
        let k = first_separator(s.drop_first());
        if k < 0 {
            -1
        } else {
            k + 1
        }
    }
}

proof fn lemma_first_separator(s: Seq<u8>)
    ensures
        first_separator(s) == -1 || 0 <= first_separator(s) <= s.len() - 3,
        first_separator(s) >= 0 ==> separator_at(s, first_separator(s)),
        forall|j: int| 0 <= j < first_separator(s) ==> !separator_at(s, j),
        first_separator(s) < 0 ==> forall|j: int| 0 <= j ==> !separator_at(s, j),
    decreases s.len(),
{
    if s.len() >= 3 && !separator_at(s, 0) {
        let t = s.drop_first();
        lemma_first_separator(t);
        assert forall|j: int| 0 < j implies separator_at(s, j) == separator_at(t, j - 1) by {
            if j + 3 <= s.len() {
                assert(s[j] == t[j - 1] && s[j + 1] == t[j] && s[j + 2] == t[j + 1]);
            }
        }
    }
}

/// The records of a document's body: the pieces between separators, as
/// `str::split` gives them (there is always at least one).
pub open spec fn records(body: Seq<u8>) -> Seq<Seq<u8>>
    decreases body.len(),
{
    let i = first_separator(body);
    if i < 0 || i + 3 > body.len() {
        seq![body]
    } else {
        seq![body.subrange(0, i)] + records(body.subrange(i + 3, body.len() as int))
    }
}

/// Whether a whole document opens with `[{` and closes with `}]`.
pub open spec fn framed(doc: Seq<u8>) -> bool {
    doc.len() >= 4 && doc[0] == 0x5b && doc[1] == 0x7b && doc[doc.len() - 2] == 0x7d
        && doc[doc.len() - 1] == 0x5d
}

/// The pieces of `doc` that the ranges select.
pub open spec fn pieces(doc: Seq<u8>, ranges: Seq<(usize, usize)>) -> Seq<Seq<u8>> {
    ranges.map_values(|r: (usize, usize)| doc.subrange(r.0 as int, r.1 as int))
}

/// Whether every range lies within `doc`.
pub open spec fn ranges_within(doc: Seq<u8>, ranges: Seq<(usize, usize)>) -> bool {
    forall|i: int| 0 <= i < ranges.len() ==> #[trigger] ranges[i].0 <= ranges[i].1 <= doc.len()
}

/// Index of the first record separator in `buf[from..to]`, counted from the
/// start of `buf`, or `to` when there is none.
fn find_separator(buf: &[u8], from: usize, to: usize) -> (r: usize)
    requires
        from <= to <= buf@.len(),
    ensures
        from <= r <= to,
        r < to ==> r + 3 <= to,
        first_separator(buf@.subrange(from as int, to as int)) == if r < to {
            r - from
        } else {
            -1
        },
{
    let ghost s = buf@.subrange(from as int, to as int);
    let mut i = from;
    while to - i >= 3 && !(buf[i] == 0x7d && buf[i + 1] == 0x2c && buf[i + 2] == 0x7b)
        invariant
            from <= i <= to <= buf@.len(),
            s == buf@.subrange(from as int, to as int),
            forall|j: int| 0 <= j < i - from ==> !separator_at(s, j),
        decreases to - i,
    {
        proof {
            assert(!separator_at(s, i - from));
        }
        i = i + 1;
    }
    proof {
        lemma_first_separator(s);
        if i + 3 <= to {
            assert(separator_at(s, i - from));
            assert(first_separator(s) == i - from);
        } else {
            assert forall|j: int| 0 <= j implies !separator_at(s, j) by {}
        }
    }
    if to - i >= 3 {
        i
    } else {
        to
    }
}

/// Checks that a whole document is framed as `[{` ... `}]` and splits what
/// lies between into records, given as byte ranges of the document.
pub fn split_records(doc: &[u8]) -> (r: Result<Vec<(usize, usize)>, DeserializationError>)
    ensures
        match r {
            Ok(v) => framed(doc@) && ranges_within(doc@, v@) && pieces(doc@, v@) == records(
                doc@.subrange(2, doc@.len() - 2),
            ),
            Err(e) => !framed(doc@) && e == DeserializationError(ErrorKind::UnexpectedFraming),
        },
{
    let n = doc.len();
    if n < 4 || doc[0] != 0x5b || doc[1] != 0x7b || doc[n - 2] != 0x7d || doc[n - 1] != 0x5d {
        return Err(DeserializationError(ErrorKind::UnexpectedFraming));
    }
    let end = n - 2;
    let ghost body = doc@.subrange(2, end as int);
    let mut out: Vec<(usize, usize)> = Vec::new();
    let mut p: usize = 2;
    let mut done = false;
    proof {
        assert(pieces(doc@, out@) =~= seq![]);
        assert(doc@.subrange(2, end as int) =~= body);
        assert(seq![] + records(body) =~= records(body));
    }
    while !done
        invariant
            2 <= p <= end,
            end + 2 == doc@.len(),
            body == doc@.subrange(2, end as int),
            ranges_within(doc@, out@),
            !done ==> records(body) == pieces(doc@, out@) + records(
                doc@.subrange(p as int, end as int),
            ),
            done ==> records(body) == pieces(doc@, out@),
        decreases (end + 1 - p) as int - if done { 1int } else { 0 },
    {
        let i = find_separator(doc, p, end);
        let ghost before = out@;
        out.push((p, i));
        proof {
            let s = doc@.subrange(p as int, end as int);
            assert(pieces(doc@, out@) =~= pieces(doc@, before).push(doc@.subrange(p as int, i as int)));
            assert(ranges_within(doc@, out@)) by {
                assert forall|k: int| 0 <= k < out@.len() implies #[trigger] out@[k].0 <= out@[k].1
                    <= doc@.len() by {
                    if k < before.len() {
                        assert(out@[k] == before[k]);
                    }
                }
            }
            if i < end {
                assert(s.subrange(0, i - p) =~= doc@.subrange(p as int, i as int));
                assert(s.subrange(i - p + 3, s.len() as int) =~= doc@.subrange(i + 3, end as int));
                assert(pieces(doc@, before) + records(s) =~= pieces(doc@, out@) + records(
                    doc@.subrange(i + 3, end as int),
                ));
            } else {
                assert(s =~= doc@.subrange(p as int, i as int));
                assert(pieces(doc@, before) + records(s) =~= pieces(doc@, out@));
            }
        }
        if i == end {
            done = true;
        } else {
            p = i + 3;
        }
    }
    Ok(out)
}

/// The members of one record: the pieces between `,`, each split at its
/// first `:` into key and value, neither trimmed. `None` when a piece has no
/// `:`, an empty piece included.
pub open spec fn record_members(rec: Seq<u8>) -> Option<Seq<(Option<CoordField>, Seq<u8>)>>
    decreases rec.len(),
{
    let i = first_index(rec, 0x2c);
    let last = i < 0 || i >= rec.len();
    let item = if last { rec } else { rec.subrange(0, i) };
    let c = first_index(item, 0x3a);
    if c < 0 || c >= item.len() {
        None
    } else {
        let member = (field_of_key(item.subrange(0, c)), item.subrange(c + 1, item.len() as int));
        if last {
            Some(seq![member])
        } else {
            match record_members(rec.subrange(i + 1, rec.len() as int)) {
                Some(ms) => Some(seq![member] + ms),
                None => None,
            }
        }
    }
}

/// Splits the record `doc[from..to]` into its members.
pub fn split_record(doc: &[u8], from: usize, to: usize) -> (r: Result<
    Vec<FieldText>,
    DeserializationError,
>)
    requires
        from <= to <= doc@.len(),
    ensures
        match r {
            Ok(v) => record_members(doc@.subrange(from as int, to as int)) == Some(
                texts_view(v@),
            ),
            Err(e) => record_members(doc@.subrange(from as int, to as int)) is None && e
                == DeserializationError(ErrorKind::InvalidJson),
        },
{
    let ghost rec = doc@.subrange(from as int, to as int);
    let mut out: Vec<FieldText> = Vec::new();
    let mut p: usize = from;
    let mut done = false;
    proof {
        assert(texts_view(out@) =~= seq![]);
        assert(seq![] + record_members(rec).unwrap_or(seq![]) =~= record_members(rec).unwrap_or(
            seq![],
        ));
    }
    while !done
        invariant
            from <= p <= to <= doc@.len(),
            rec == doc@.subrange(from as int, to as int),
            !done ==> record_members(rec) == prepend(
                texts_view(out@),
                record_members(doc@.subrange(p as int, to as int)),
            ),
            done ==> record_members(rec) == Some(texts_view(out@)),
        decreases (to + 1 - p) as int - if done { 1int } else { 0 },
    {
        let ghost s = doc@.subrange(p as int, to as int);
        let i = find_byte(doc, p, to, 0x2c);
        let c = find_byte(doc, p, i, 0x3a);
        proof {
            let item = if i < to { s.subrange(0, i - p) } else { s };
            assert(item =~= doc@.subrange(p as int, i as int));
        }
        if c == i {
            return Err(DeserializationError(ErrorKind::InvalidJson));
        }
        let key = copy_range(doc, p, c);
        let field = key_field(&key);
        let value = copy_range(doc, c + 1, i);
        let ghost before = out@;
        let ghost member = (field, value@);
        out.push(FieldText { field, value });
        proof {
            let item = doc@.subrange(p as int, i as int);
            assert(item.subrange(0, c - p) =~= doc@.subrange(p as int, c as int));
            assert(item.subrange(c - p + 1, item.len() as int) =~= doc@.subrange(
                c + 1,
                i as int,
            ));
            assert(texts_view(out@) =~= texts_view(before).push(member));
            if i < to {
                assert(s.subrange(i - p + 1, s.len() as int) =~= doc@.subrange(i + 1, to as int));
                match record_members(doc@.subrange(i + 1, to as int)) {
                    Some(ms) => {
                        assert(texts_view(before) + (seq![member] + ms) =~= texts_view(out@)
                            + ms);
                    },
                    None => {},
                }
            } else {
                assert(texts_view(before) + seq![member] =~= texts_view(out@));
            }
        }
        if i == to {
            done = true;
        } else {
            p = i + 1;
        }
    }
    Ok(out)
}

} // verus!
