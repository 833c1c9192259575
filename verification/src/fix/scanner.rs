use vstd::prelude::*;
use vstd::slice::slice_subrange;

verus! {

/// Field delimiter of the FIX tag=value encoding.
pub const SOH: u8 = 0x01;

/// `=` separates a tag from its value.
pub const EQ: u8 = 0x3d;

pub open spec fn is_digit(b: u8) -> bool {
    48 <= b <= 57
}

pub open spec fn all_digits(s: Seq<u8>) -> bool {
    forall|i: int| 0 <= i < s.len() ==> is_digit(#[trigger] s[i])
}

/// The value of a string of ASCII decimal digits (most significant first).
pub open spec fn decimal_value(s: Seq<u8>) -> nat
    decreases s.len(),
{
    if s.len() == 0 {
        0
    } else {
        decimal_value(s.drop_last()) * 10 + (s.last() - 48) as nat
    }
}

/// A decimal string that fits under `max`: every byte is a digit (the empty string
/// is 0) and the value is at most `max`.
pub open spec fn spec_parse_decimal(s: Seq<u8>, max: nat) -> Option<nat> {
    if all_digits(s) && decimal_value(s) <= max {
        Some(decimal_value(s))
    } else {
        None
    }
}

/// Index of the first occurrence of `b` in `s` at or after `i`.
pub open spec fn find_from(s: Seq<u8>, b: u8, i: int) -> Option<int>
    decreases s.len() - i,
{
    if i < 0 || i >= s.len() {
        None
    } else if s[i] == b {
        Some(i)
    } else {
        find_from(s, b, i + 1)
    }
}

pub open spec fn first_index(s: Seq<u8>, b: u8) -> Option<int> {
    find_from(s, b, 0)
}

pub proof fn lemma_find_from(s: Seq<u8>, b: u8, i: int)
    requires
        0 <= i,
    ensures
        match find_from(s, b, i) {
            Some(j) => i <= j < s.len() && s[j] == b && forall|k: int| i <= k < j ==> s[k] != b,
            None => forall|k: int| i <= k < s.len() ==> s[k] != b,
        },
    decreases s.len() - i,
{
    if i < s.len() && s[i] != b {
        lemma_find_from(s, b, i + 1);
    }
}

pub proof fn lemma_decimal_prefix(s: Seq<u8>, i: int)
    requires
        all_digits(s),
        0 <= i <= s.len(),
    ensures
        all_digits(s.take(i)),
        decimal_value(s.take(i)) <= decimal_value(s),
    decreases s.len(),
{
    if i < s.len() {
        assert(s.drop_last().take(i) =~= s.take(i));
        lemma_decimal_prefix(s.drop_last(), i);
    } else {
        assert(s.take(i) =~= s);
    }
}

/// What the scanner reads from position `pos` of `data`: the tag, and the start and
/// end of the value, or `None` where no complete `tag=value<SOH>` field starts there.
pub open spec fn spec_next_field(data: Seq<u8>, pos: int) -> Option<(u32, int, int)> {
    if pos < 0 || pos >= data.len() {
        None
    } else {
        match first_index(data.subrange(pos, data.len() as int), EQ) {
            None => None,
            Some(e) => {
                let tag_end = pos + e;
                match spec_parse_decimal(data.subrange(pos, tag_end), u32::MAX as nat) {
                    None => None,
                    Some(tag) => {
                        let value_start = tag_end + 1;
                        match first_index(data.subrange(value_start, data.len() as int), SOH) {
                            None => None,
                            Some(s) => Some((tag as u32, value_start, value_start + s)),
                        }
                    },
                }
            },
        }
    }
}

/// Every field that repeated calls of the scanner yield from position `pos` on.
pub open spec fn spec_fields(data: Seq<u8>, pos: int) -> Seq<(u32, int, int)>
    decreases data.len() - pos,
{
    match spec_next_field(data, pos) {
        None => Seq::empty(),
        Some((tag, vs, ve)) => if pos < ve + 1 <= data.len() {
            seq![(tag, vs, ve)] + spec_fields(data, ve + 1)
        } else {
            Seq::empty()
        },
    }
}

/// Start and end of the value of the last field with `tag` among `fields`.
pub open spec fn last_with_tag(fields: Seq<(u32, int, int)>, tag: u32) -> Option<(int, int)>
    decreases fields.len(),
{
    if fields.len() == 0 {
        None
    } else if fields.last().0 == tag {
        Some((fields.last().1, fields.last().2))
    } else {
        last_with_tag(fields.drop_last(), tag)
    }
}

/// The value that a scanned message holds for `tag`: that of the last field with it.
pub open spec fn tag_value(data: Seq<u8>, tag: u32) -> Option<Seq<u8>> {
    match last_with_tag(spec_fields(data, 0), tag) {
        None => None,
        Some((s, e)) => Some(data.subrange(s, e)),
    }
}

pub open spec fn opt_bytes(o: Option<&[u8]>) -> Option<Seq<u8>> {
    match o {
        None => None,
        Some(s) => Some(s@),
    }
}

pub proof fn lemma_next_field_bounds(data: Seq<u8>, pos: int)
    ensures
        spec_next_field(data, pos) matches Some((tag, vs, ve)) ==> {
            &&& pos < vs <= ve < data.len()
            &&& data[ve] == SOH
            &&& ve + 1 <= data.len()
        },
{
    if 0 <= pos < data.len() {
        let rem = data.subrange(pos, data.len() as int);
        lemma_find_from(rem, EQ, 0);
        if let Some(e) = first_index(rem, EQ) {
            let vs = pos + e + 1;
            let rest = data.subrange(vs, data.len() as int);
            lemma_find_from(rest, SOH, 0);
        }
    }
}

pub struct FixScanner<'a> {
    data: &'a [u8],
    pos: usize,
}

#[derive(Clone, Copy)]
pub struct FixField<'a> {
    pub tag: u32,
    pub value: &'a [u8],
}

pub struct FixMessage<'a> {
    pub msg_type: Option<&'a [u8]>,
    pub symbol: Option<&'a [u8]>,
    pub price: Option<&'a [u8]>,
    pub side: Option<&'a [u8]>,
    pub order_qty: Option<&'a [u8]>,
    pub clord_id: Option<&'a [u8]>,
    pub sender: Option<&'a [u8]>,
    pub target: Option<&'a [u8]>,
}

impl<'a> Default for FixMessage<'a> {
    fn default() -> (m: Self)
        ensures
            m.msg_type is None,
            m.symbol is None,
            m.price is None,
            m.side is None,
            m.order_qty is None,
            m.clord_id is None,
            m.sender is None,
            m.target is None,
    {
        FixMessage {
            msg_type: None,
            symbol: None,
            price: None,
            side: None,
            order_qty: None,
            clord_id: None,
            sender: None,
            target: None,
        }
    }
}

impl<'a> FixMessage<'a> {
    /// The message's fields of interest are exactly the values of the last field that
    /// carries each of their tags, among the fields read from the start of `data`.
    pub open spec fn scanned_from(&self, data: Seq<u8>) -> bool {
        &&& opt_bytes(self.msg_type) == tag_value(data, 35)
        &&& opt_bytes(self.symbol) == tag_value(data, 55)
        &&& opt_bytes(self.price) == tag_value(data, 44)
        &&& opt_bytes(self.side) == tag_value(data, 54)
        &&& opt_bytes(self.order_qty) == tag_value(data, 38)
        &&& opt_bytes(self.clord_id) == tag_value(data, 11)
        &&& opt_bytes(self.sender) == tag_value(data, 49)
        &&& opt_bytes(self.target) == tag_value(data, 56)
    }

    pub fn scan(data: &'a [u8]) -> (msg: FixMessage<'a>)
        ensures
            msg.scanned_from(data@),
    {
        let mut scanner = FixScanner::new(data);
        let mut msg = FixMessage::default();
        let ghost all = spec_fields(data@, 0);
        let ghost mut done: Seq<(u32, int, int)> = Seq::empty();
        loop
            invariant_except_break
                scanner.data@ == data@,
                scanner.pos <= data@.len(),
                all == spec_fields(data@, 0),
                all == done + spec_fields(data@, scanner.pos as int),
                opt_field(msg.msg_type, data@, done, 35),
                opt_field(msg.symbol, data@, done, 55),
                opt_field(msg.price, data@, done, 44),
                opt_field(msg.side, data@, done, 54),
                opt_field(msg.order_qty, data@, done, 38),
                opt_field(msg.clord_id, data@, done, 11),
                opt_field(msg.sender, data@, done, 49),
                opt_field(msg.target, data@, done, 56),
            ensures
                msg.scanned_from(data@),
            decreases data@.len() - scanner.pos,
        {
            let ghost pos0 = scanner.pos as int;
            let next = scanner.next_field();
            match next {
                None => {
                    proof {
                        assert(spec_fields(data@, pos0) =~= Seq::<(u32, int, int)>::empty());
                        assert(done =~= all);
                    }
                    break;
                },
                Some(field) => {
                    let ghost f = spec_next_field(data@, pos0)->0;
                    proof {
                        lemma_next_field_bounds(data@, pos0);
                        assert(spec_fields(data@, pos0) =~= seq![f] + spec_fields(data@, f.2 + 1));
                        assert(done + spec_fields(data@, pos0) =~= done.push(f) + spec_fields(
                            data@,
                            f.2 + 1,
                        ));
                        assert(done.push(f).drop_last() =~= done);
                        done = done.push(f);
                    }
                    if field.tag == 35 {
                        msg.msg_type = Some(field.value);
                    } else if field.tag == 55 {
                        msg.symbol = Some(field.value);
                    } else if field.tag == 44 {
                        msg.price = Some(field.value);
                    } else if field.tag == 54 {
                        msg.side = Some(field.value);
                    } else if field.tag == 38 {
                        msg.order_qty = Some(field.value);
                    } else if field.tag == 11 {
                        msg.clord_id = Some(field.value);
                    } else if field.tag == 49 {
                        msg.sender = Some(field.value);
                    } else if field.tag == 56 {
                        msg.target = Some(field.value);
                    }
                },
            }
        }
        msg
    }
}

/// `o` holds the value of the last field with `tag` among `done`.
pub open spec fn opt_field(o: Option<&[u8]>, data: Seq<u8>, done: Seq<(u32, int, int)>, tag: u32) -> bool {
    opt_bytes(o) == match last_with_tag(done, tag) {
        None => None,
        Some((s, e)) => Some(data.subrange(s, e)),
    }
}

impl<'a> FixScanner<'a> {
    /// The position never passes the end of the data.
    #[verifier::type_invariant]
    closed spec fn inv(self) -> bool {
        self.pos <= self.data@.len()
    }

    pub closed spec fn bytes(&self) -> Seq<u8> {
        self.data@
    }

    pub closed spec fn position(&self) -> int {
        self.pos as int
    }

    pub fn new(data: &'a [u8]) -> (s: Self)
        ensures
            s.bytes() == data@,
            s.position() == 0,
    {
        FixScanner { data, pos: 0 }
    }

    /// Reads the field at the current position and moves past it; where no complete
    /// field starts there, returns `None` and stays.
    pub fn next_field(&mut self) -> (r: Option<FixField<'a>>)
        ensures
            final(self).bytes() == old(self).bytes(),
            final(self).position() <= final(self).bytes().len(),
            match spec_next_field(old(self).bytes(), old(self).position()) {
                None => r is None && final(self).position() == old(self).position(),
                Some((tag, vs, ve)) => {
                    &&& r matches Some(f) && f.tag == tag && f.value@ == old(self).bytes().subrange(vs, ve)
                    &&& final(self).position() == ve + 1
                },
            },
    {
        proof {
            use_type_invariant(&*self);
            lemma_next_field_bounds(self.data@, self.pos as int);
        }
        if self.pos >= self.data.len() {
            return None;
        }
        let remaining = slice_subrange(self.data, self.pos, self.data.len());

        let eq_pos = match memchr(EQ, remaining) {
            Some(e) => e,
            None => return None,
        };
        proof {
            lemma_find_from(remaining@, EQ, 0);
        }
        let tag_end = self.pos + eq_pos;
        let tag = match parse_tag(slice_subrange(self.data, self.pos, tag_end)) {
            Some(t) => t,
            None => return None,
        };

        let value_start = tag_end + 1;
        if value_start > self.data.len() {
            return None;
        }
        let soh_pos = match memchr(SOH, slice_subrange(self.data, value_start, self.data.len())) {
            Some(s) => s,
            None => return None,
        };
        proof {
            lemma_find_from(self.data@.subrange(value_start as int, self.data@.len() as int), SOH, 0);
        }
        let value_end = value_start + soh_pos;

        let value = slice_subrange(self.data, value_start, value_end);
        self.pos = value_end + 1;

        Some(FixField { tag, value })
    }
}

pub fn parse_tag(data: &[u8]) -> (r: Option<u32>)
    ensures
        r matches Some(v) ==> spec_parse_decimal(data@, u32::MAX as nat) == Some(v as nat),
        r is None ==> spec_parse_decimal(data@, u32::MAX as nat) is None,
{
    let mut result: u32 = 0;
    let mut i: usize = 0;
    while i < data.len()
        invariant
            i <= data.len(),
            all_digits(data@.take(i as int)),
            result as nat == decimal_value(data@.take(i as int)),
        decreases data.len() - i,
    {
        let b = data[i];
        proof {
            assert(data@.take(i + 1).drop_last() =~= data@.take(i as int));
        }
        if b >= 48 && b <= 57 {
            let r = match result.checked_mul(10) {
                Some(r) => r,
                None => {
                    proof {
                        if all_digits(data@) {
                            lemma_decimal_prefix(data@, i + 1);
                        }
                    }
                    return None;
                },
            };
            result = match r.checked_add((b - 48) as u32) {
                Some(r) => r,
                None => {
                    proof {
                        if all_digits(data@) {
                            lemma_decimal_prefix(data@, i + 1);
                        }
                    }
                    return None;
                },
            };
        } else {
            return None;
        }
        i += 1;
    }
    proof {
        assert(data@.take(i as int) =~= data@);
    }
    Some(result)
}

fn memchr(needle: u8, haystack: &[u8]) -> (r: Option<usize>)
    ensures
        r matches Some(i) ==> first_index(haystack@, needle) == Some(i as int),
        r is None ==> first_index(haystack@, needle) is None,
{
    let mut i: usize = 0;
    while i < haystack.len()
        invariant
            i <= haystack.len(),
            find_from(haystack@, needle, 0) == find_from(haystack@, needle, i as int),
        decreases haystack.len() - i,
    {
        if haystack[i] == needle {
            return Some(i);
        }
        i += 1;
    }
    None
}

/// Parses an unsigned decimal; `None` where a byte is not a digit or the value does not
/// fit in 64 bits. The empty string gives `Some(0)`.
pub fn parse_u64(data: &[u8]) -> (r: Option<u64>)
    ensures
        r matches Some(v) ==> spec_parse_decimal(data@, u64::MAX as nat) == Some(v as nat),
        r is None ==> spec_parse_decimal(data@, u64::MAX as nat) is None,
{
    let mut result: u64 = 0;
    let mut i: usize = 0;
    while i < data.len()
        invariant
            i <= data.len(),
            all_digits(data@.take(i as int)),
            result as nat == decimal_value(data@.take(i as int)),
        decreases data.len() - i,
    {
        let b = data[i];
        proof {
            assert(data@.take(i + 1).drop_last() =~= data@.take(i as int));
        }
        if b >= 48 && b <= 57 {
            let r = match result.checked_mul(10) {
                Some(r) => r,
                None => {
                    proof {
                        if all_digits(data@) {
                            lemma_decimal_prefix(data@, i + 1);
                        }
                    }
                    return None;
                },
            };
            result = match r.checked_add((b - 48) as u64) {
                Some(r) => r,
                None => {
                    proof {
                        if all_digits(data@) {
                            lemma_decimal_prefix(data@, i + 1);
                        }
                    }
                    return None;
                },
            };
        } else {
            return None;
        }
        i += 1;
    }
    proof {
        assert(data@.take(i as int) =~= data@);
    }
    Some(result)
}

} // verus!
