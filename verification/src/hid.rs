//! Experimental, pure HID descriptor and report-fixture support.
//!
//! This module never opens hidraw devices or writes controller output. It
//! preserves generic descriptor structure and opaque report bytes so hardware
//! recordings can later drive a validated live backend.

use vstd::prelude::*;
use vstd::slice::slice_subrange;

use crate::model::Transport;
use crate::text::{decimal, push_decimal, push_str};
use crate::sorting::{insert_by, sort_by, lemma_insert_by_split, lemma_sort_by_sorted, is_total_preorder, sorted_by};

verus! {

/// Deepest collection nesting a descriptor may declare.
pub const MAX_COLLECTION_DEPTH: usize = 32;

/// The class encoded by a short HID item prefix.
#[derive(Debug, Clone, Copy, PartialEq, Eq, Structural)]
pub enum HidItemType {
    Main,
    Global,
    Local,
    Reserved,
}

/// Whether an item uses the compact or long HID encoding.
#[derive(Debug, Clone, Copy, PartialEq, Eq, Structural)]
pub enum HidItemKind {
    Short { item_type: HidItemType, tag: u8 },
    Long { tag: u8 },
}

/// A lossless HID item with its descriptor byte offset.
#[derive(Debug, PartialEq, Eq)]
pub struct HidItem {
    pub offset: usize,
    pub kind: HidItemKind,
    pub data: Vec<u8>,
}

impl View for HidItem {
    type V = (usize, HidItemKind, Seq<u8>);

    open spec fn view(&self) -> (usize, HidItemKind, Seq<u8>) {
        (self.offset, self.kind, self.data@)
    }
}

impl Clone for HidItem {
    fn clone(&self) -> (r: Self)
        ensures
            r@ == self@,
    {
        let data = self.data.clone();
        assert(data@ =~= self.data@);
        HidItem { offset: self.offset, kind: self.kind, data }
    }
}

pub open spec fn items_view(items: Seq<HidItem>) -> Seq<(usize, HidItemKind, Seq<u8>)> {
    items.map_values(|item: HidItem| item@)
}

/// Errors raised while preserving a descriptor item stream.
#[derive(Debug, Clone, Copy, PartialEq, Eq, Structural)]
pub enum HidParseError {
    TruncatedShortItem { offset: usize, expected: usize },
    TruncatedLongItem { offset: usize, expected: usize },
}

/// Number of data bytes announced by a short-item prefix (size code 3 means 4).
pub open spec fn short_data_size(prefix: u8) -> int {
    if prefix % 4 == 3 {
        4
    } else {
        (prefix % 4) as int
    }
}

/// The item class announced by bits 2-3 of a short-item prefix.
pub open spec fn short_item_type(prefix: u8) -> HidItemType {
    let t = (prefix / 4) % 4;
    if t == 0 {
        HidItemType::Main
    } else if t == 1 {
        HidItemType::Global
    } else if t == 2 {
        HidItemType::Local
    } else {
        HidItemType::Reserved
    }
}

/// `Ok(prefix + rest)` when `r` is `Ok(rest)`; the error otherwise.
pub open spec fn prepend_items(
    prefix: Seq<(usize, HidItemKind, Seq<u8>)>,
    r: Result<Seq<(usize, HidItemKind, Seq<u8>)>, HidParseError>,
) -> Result<Seq<(usize, HidItemKind, Seq<u8>)>, HidParseError> {
    match r {
        Ok(rest) => Ok(prefix + rest),
        Err(e) => Err(e),
    }
}

/// The HID item grammar: the items of `bytes` starting at byte `offset`.
///
/// A prefix of `0xfe` starts a long item (`0xfe`, size, tag, data); any other
/// prefix is a short item whose low two bits give the data size.
pub open spec fn items_from(bytes: Seq<u8>, offset: int) -> Result<
    Seq<(usize, HidItemKind, Seq<u8>)>,
    HidParseError,
>
    decreases bytes.len() - offset,
{
    if offset < 0 || offset >= bytes.len() {
        Ok(seq![])
    } else {
        let prefix = bytes[offset];
        if prefix == 0xfe {
            if offset + 2 >= bytes.len() {
                Err(HidParseError::TruncatedLongItem { offset: offset as usize, expected: 2 })
            } else {
                let size = bytes[offset + 1] as int;
                let tag = bytes[offset + 2];
                let end = offset + 3 + size;
                if end > bytes.len() {
                    Err(
                        HidParseError::TruncatedLongItem {
                            offset: offset as usize,
                            expected: size as usize,
                        },
                    )
                } else {
                    prepend_items(
                        seq![
                            (
                                offset as usize,
                                HidItemKind::Long { tag },
                                bytes.subrange(offset + 3, end),
                            ),
                        ],
                        items_from(bytes, end),
                    )
                }
            }
        } else {
            let size = short_data_size(prefix);
            let end = offset + 1 + size;
            if end > bytes.len() {
                Err(
                    HidParseError::TruncatedShortItem {
                        offset: offset as usize,
                        expected: size as usize,
                    },
                )
            } else {
                prepend_items(
                    seq![
                        (
                            offset as usize,
                            HidItemKind::Short {
                                item_type: short_item_type(prefix),
                                tag: prefix / 16,
                            },
                            bytes.subrange(offset + 1, end),
                        ),
                    ],
                    items_from(bytes, end),
                )
            }
        }
    }
}

/// Parse a descriptor into lossless items without assigning device semantics.
///
/// The result is exactly `items_from(bytes, 0)`: an error only when the raw
/// item stream is truncated.
pub fn parse_items(bytes: &[u8]) -> (r: Result<Vec<HidItem>, HidParseError>)
    ensures
        match r {
            Ok(items) => items_from(bytes@, 0) == Ok::<_, HidParseError>(items_view(items@)),
            Err(e) => items_from(bytes@, 0) == Err::<Seq<(usize, HidItemKind, Seq<u8>)>, _>(e),
        },
{
    let mut items: Vec<HidItem> = Vec::new();
    let mut offset: usize = 0;
    assert(items_from(bytes@, 0) =~= prepend_items(items_view(items@), items_from(bytes@, 0))) by {
        match items_from(bytes@, 0) {
            Ok(rest) => {
                assert(items_view(items@) + rest =~= rest);
            },
            Err(_) => {},
        }
    }
    while offset < bytes.len()
        invariant
            offset <= bytes@.len(),
            items_from(bytes@, 0) == prepend_items(items_view(items@), items_from(bytes@, offset as int)),
        decreases bytes@.len() - offset,
    {
        let ghost before = items_view(items@);
        let prefix = bytes[offset];
        if prefix == 0xfe {
            if bytes.len() - offset <= 2 {
                return Err(HidParseError::TruncatedLongItem { offset, expected: 2 });
            }
            let size = bytes[offset + 1] as usize;
            let tag = bytes[offset + 2];
            if size > bytes.len() - offset - 3 {
                return Err(HidParseError::TruncatedLongItem { offset, expected: size });
            }
            let end = offset + 3 + size;
            let data = vstd::slice::slice_to_vec(slice_subrange(bytes, offset + 3, end));
            items.push(HidItem { offset, kind: HidItemKind::Long { tag }, data });
            proof {
                let item = (offset, HidItemKind::Long { tag }, bytes@.subrange(offset + 3, end as int));
                assert(items_view(items@) =~= before.push(item));
                match items_from(bytes@, end as int) {
                    Ok(rest) => {
                        assert(before + (seq![item] + rest) =~= before.push(item) + rest);
                    },
                    Err(_) => {},
                }
            }
            offset = end;
        } else {
            let size: usize = if prefix % 4 == 3 {
                4
            } else {
                (prefix % 4) as usize
            };
            if size > bytes.len() - offset - 1 {
                return Err(HidParseError::TruncatedShortItem { offset, expected: size });
            }
            let end = offset + 1 + size;
            let t = (prefix / 4) % 4;
            let item_type = if t == 0 {
                HidItemType::Main
            } else if t == 1 {
                HidItemType::Global
            } else if t == 2 {
                HidItemType::Local
            } else {
                HidItemType::Reserved
            };
            let kind = HidItemKind::Short { item_type, tag: prefix / 16 };
            let data = vstd::slice::slice_to_vec(slice_subrange(bytes, offset + 1, end));
            items.push(HidItem { offset, kind, data });
            proof {
                let item = (offset, kind, bytes@.subrange(offset + 1, end as int));
                assert(items_view(items@) =~= before.push(item));
                match items_from(bytes@, end as int) {
                    Ok(rest) => {
                        assert(before + (seq![item] + rest) =~= before.push(item) + rest);
                    },
                    Err(_) => {},
                }
            }
            offset = end;
        }
    }
    assert(items_view(items@) + seq![] =~= items_view(items@));
    Ok(items)
}

/// The prefix byte that encodes a short item with the given class, tag and data length.
pub open spec fn short_prefix(item_type: HidItemType, tag: u8, len: int) -> int {
    let type_code: int = match item_type {
        HidItemType::Main => 0,
        HidItemType::Global => 1,
        HidItemType::Local => 2,
        HidItemType::Reserved => 3,
    };
    let size_code: int = if len == 4 { 3 } else { len };
    tag * 16 + type_code * 4 + size_code
}

/// The bytes that encode one item.
pub open spec fn encode_item(item: (usize, HidItemKind, Seq<u8>)) -> Seq<u8> {
    match item.1 {
        HidItemKind::Short { item_type, tag } => seq![
            short_prefix(item_type, tag, item.2.len() as int) as u8,
        ] + item.2,
        HidItemKind::Long { tag } => seq![0xfeu8, item.2.len() as u8, tag] + item.2,
    }
}

/// The bytes that encode a sequence of items, in order.
pub open spec fn encode_items(items: Seq<(usize, HidItemKind, Seq<u8>)>) -> Seq<u8>
    decreases items.len(),
{
    if items.len() == 0 {
        seq![]
    } else {
        encode_item(items[0]) + encode_items(items.drop_first())
    }
}

/// Item parsing is lossless: re-encoding the parsed items gives back the input.
pub proof fn law_items_round_trip(bytes: Seq<u8>, items: Seq<(usize, HidItemKind, Seq<u8>)>)
    requires
        items_from(bytes, 0) == Ok::<_, HidParseError>(items),
    ensures
        encode_items(items) == bytes,
{
    lemma_items_from_encode(bytes, 0);
    assert(bytes.subrange(0, bytes.len() as int) =~= bytes);
}

proof fn lemma_items_from_encode(bytes: Seq<u8>, offset: int)
    requires
        0 <= offset <= bytes.len(),
    ensures
        items_from(bytes, offset) matches Ok(items) ==> encode_items(items) == bytes.subrange(
            offset,
            bytes.len() as int,
        ),
    decreases bytes.len() - offset,
{
    if offset >= bytes.len() {
        assert(bytes.subrange(offset, bytes.len() as int) =~= Seq::<u8>::empty());
    } else {
        let prefix = bytes[offset];
        if prefix == 0xfe {
            if offset + 2 < bytes.len() {
                let size = bytes[offset + 1] as int;
                let end = offset + 3 + size;
                if end <= bytes.len() {
                    lemma_items_from_encode(bytes, end);
                    if let Ok(rest) = items_from(bytes, end) {
                        let item = (offset as usize, HidItemKind::Long { tag: bytes[offset + 2] }, bytes.subrange(offset + 3, end));
                        let all = seq![item] + rest;
                        assert(all[0] == item);
                        assert(all.drop_first() =~= rest);
                        assert(encode_item(item) =~= bytes.subrange(offset, end));
                        assert(bytes.subrange(offset, end) + bytes.subrange(end, bytes.len() as int)
                            =~= bytes.subrange(offset, bytes.len() as int));
                    }
                }
            }
        } else {
            let size = short_data_size(prefix);
            let end = offset + 1 + size;
            if end <= bytes.len() {
                lemma_items_from_encode(bytes, end);
                if let Ok(rest) = items_from(bytes, end) {
                    let item = (
                        offset as usize,
                        HidItemKind::Short { item_type: short_item_type(prefix), tag: prefix / 16 },
                        bytes.subrange(offset + 1, end),
                    );
                    let all = seq![item] + rest;
                    assert(all[0] == item);
                    assert(all.drop_first() =~= rest);
                    assert(short_prefix(short_item_type(prefix), prefix / 16, size) == prefix as int) by {
                        assert(prefix as int == (prefix / 16) * 16 + ((prefix / 4) % 4) * 4 + prefix % 4) by (nonlinear_arith);
                    }
                    assert(encode_item(item) =~= bytes.subrange(offset, end));
                    assert(bytes.subrange(offset, end) + bytes.subrange(end, bytes.len() as int)
                        =~= bytes.subrange(offset, bytes.len() as int));
                }
            }
        }
    }
}

/// Every short item the grammar produces carries at most four data bytes.
pub proof fn lemma_short_items_small(bytes: Seq<u8>, offset: int)
    requires
        0 <= offset <= bytes.len(),
    ensures
        items_from(bytes, offset) matches Ok(items) ==> forall|i: int|
            0 <= i < items.len() ==> (#[trigger] items[i]).1 is Short ==> items[i].2.len() <= 4,
    decreases bytes.len() - offset,
{
    if offset < bytes.len() {
        let prefix = bytes[offset];
        if prefix == 0xfe {
            if offset + 2 < bytes.len() {
                let end = offset + 3 + bytes[offset + 1] as int;
                if end <= bytes.len() {
                    lemma_short_items_small(bytes, end);
                }
            }
        } else {
            let end = offset + 1 + short_data_size(prefix);
            if end <= bytes.len() {
                lemma_short_items_small(bytes, end);
                if let Ok(rest) = items_from(bytes, end) {
                    let item = (
                        offset as usize,
                        HidItemKind::Short { item_type: short_item_type(prefix), tag: prefix / 16 },
                        bytes.subrange(offset + 1, end),
                    );
                    let all = seq![item] + rest;
                    assert forall|i: int| 0 <= i < all.len() && (#[trigger] all[i]).1 is Short implies all[i].2.len() <= 4 by {
                        if i > 0 {
                            assert(all[i] == rest[i - 1]);
                        }
                    }
                }
            }
        }
    }
}


/// Generic report channel. These values do not imply a live output transport.
#[derive(Debug, Clone, Copy, PartialEq, Eq, PartialOrd, Ord, Structural)]
pub enum HidReportType {
    Input,
    Output,
    Feature,
}

/// Position of a report type in the layout ordering (`Input < Output < Feature`).
pub open spec fn report_type_rank(t: HidReportType) -> int {
    match t {
        HidReportType::Input => 0,
        HidReportType::Output => 1,
        HidReportType::Feature => 2,
    }
}

/// The model of one report field.
pub struct FieldModel {
    pub bit_offset: u32,
    pub bit_size: u32,
    pub count: u32,
    pub flags: u32,
    pub variable: bool,
    pub usages: Seq<u32>,
}

/// The model of one report layout.
pub struct LayoutModel {
    pub report_type: HidReportType,
    pub report_id: u8,
    pub payload_bits: u32,
    pub fields: Seq<FieldModel>,
}

/// One variable or array field in a report layout.
#[derive(Debug, PartialEq, Eq)]
pub struct HidField {
    pub bit_offset: u32,
    pub bit_size: u32,
    pub count: u32,
    pub flags: u32,
    pub variable: bool,
    pub usages: Vec<u32>,
}

impl View for HidField {
    type V = FieldModel;

    open spec fn view(&self) -> FieldModel {
        FieldModel {
            bit_offset: self.bit_offset,
            bit_size: self.bit_size,
            count: self.count,
            flags: self.flags,
            variable: self.variable,
            usages: self.usages@,
        }
    }
}

impl Clone for HidField {
    fn clone(&self) -> (r: Self)
        ensures
            r@ == self@,
    {
        let usages = self.usages.clone();
        assert(usages@ =~= self.usages@);
        HidField {
            bit_offset: self.bit_offset,
            bit_size: self.bit_size,
            count: self.count,
            flags: self.flags,
            variable: self.variable,
            usages,
        }
    }
}

/// One report ID and channel shape declared by a HID descriptor.
#[derive(Debug, PartialEq, Eq)]
pub struct HidReportLayout {
    pub report_type: HidReportType,
    pub report_id: u8,
    pub payload_bits: u32,
    pub fields: Vec<HidField>,
}

pub open spec fn fields_view(fields: Seq<HidField>) -> Seq<FieldModel> {
    fields.map_values(|f: HidField| f@)
}

impl View for HidReportLayout {
    type V = LayoutModel;

    open spec fn view(&self) -> LayoutModel {
        LayoutModel {
            report_type: self.report_type,
            report_id: self.report_id,
            payload_bits: self.payload_bits,
            fields: fields_view(self.fields@),
        }
    }
}

impl Clone for HidReportLayout {
    fn clone(&self) -> (r: Self)
        ensures
            r@ == self@,
    {
        let mut fields: Vec<HidField> = Vec::new();
        let mut i: usize = 0;
        while i < self.fields.len()
            invariant
                i <= self.fields@.len(),
                fields@.len() == i,
                fields_view(fields@) == fields_view(self.fields@).subrange(0, i as int),
            decreases self.fields@.len() - i,
        {
            let ghost prev = fields@;
            let f = self.fields[i].clone();
            fields.push(f);
            assert forall|k: int| 0 <= k <= i implies #[trigger] fields_view(fields@)[k]
                == fields_view(self.fields@)[k] by {
                if k < i {
                    assert(fields@[k] == prev[k]);
                    assert(fields_view(prev)[k] == fields_view(self.fields@).subrange(0, i as int)[k]);
                }
            }
            i = i + 1;
            assert(fields_view(fields@) =~= fields_view(self.fields@).subrange(0, i as int));
        }
        assert(fields_view(self.fields@).subrange(0, i as int) =~= fields_view(self.fields@));
        HidReportLayout {
            report_type: self.report_type,
            report_id: self.report_id,
            payload_bits: self.payload_bits,
            fields,
        }
    }
}

/// Bytes needed to hold `bits` payload bits.
pub open spec fn payload_bytes(bits: u32) -> int {
    (bits + 7) / 8
}

impl HidReportLayout {
    pub fn minimum_payload_bytes(&self) -> (n: usize)
        ensures
            n == payload_bytes(self.payload_bits),
    {
        let whole = self.payload_bits / 8;
        if self.payload_bits % 8 == 0 {
            whole as usize
        } else {
            (whole + 1) as usize
        }
    }
}

pub open spec fn layouts_view(layouts: Seq<HidReportLayout>) -> Seq<LayoutModel> {
    layouts.map_values(|l: HidReportLayout| l@)
}

/// A generic parsed HID descriptor. It does not assign gamepad semantics.
#[derive(Debug, PartialEq, Eq)]
pub struct HidDescriptor {
    pub items: Vec<HidItem>,
    pub layouts: Vec<HidReportLayout>,
}

/// Semantic descriptor-validation failures with reproducible byte offsets.
#[derive(Debug, Clone, Copy, PartialEq, Eq, Structural)]
pub enum HidValidationError {
    GlobalPopUnderflow { offset: usize },
    UnclosedGlobalPush { depth: usize },
    CollectionEndWithoutStart { offset: usize },
    UnclosedCollection { depth: usize },
    CollectionDepthExceeded { offset: usize },
    ZeroReportId { offset: usize },
    MissingReportSize { offset: usize },
    MissingReportCount { offset: usize },
    ArithmeticOverflow { offset: usize },
}

/// HID global item state that `Push` saves and `Pop` restores.
#[derive(Debug, Clone, Copy, PartialEq, Eq, Structural)]
pub struct GlobalState {
    pub usage_page: Option<u32>,
    pub report_size: Option<u32>,
    pub report_count: Option<u32>,
    pub report_id: u8,
}

pub open spec fn initial_global() -> GlobalState {
    GlobalState { usage_page: None, report_size: None, report_count: None, report_id: 0 }
}

/// Little-endian unsigned value of item data.
pub open spec fn le_value(data: Seq<u8>) -> nat
    decreases data.len(),
{
    if data.len() == 0 {
        0
    } else {
        (data[0] + 256 * le_value(data.drop_first())) as nat
    }
}

pub open spec fn pow256(n: nat) -> nat
    decreases n,
{
    if n == 0 {
        1
    } else {
        256 * pow256((n - 1) as nat)
    }
}

proof fn lemma_le_value_bound(data: Seq<u8>)
    ensures
        le_value(data) < pow256(data.len()),
    decreases data.len(),
{
    if data.len() > 0 {
        lemma_le_value_bound(data.drop_first());
        let a = data[0] as int;
        let b = le_value(data.drop_first()) as int;
        let p = pow256(data.drop_first().len()) as int;
        assert(a + 256 * b < 256 * p) by (nonlinear_arith)
            requires
                0 <= a < 256,
                0 <= b < p,
        ;
    }
}

proof fn lemma_le_value_fits(data: Seq<u8>)
    requires
        data.len() <= 4,
    ensures
        le_value(data) <= u32::MAX,
{
    lemma_le_value_bound(data);
    reveal_with_fuel(pow256, 5);
    assert(pow256(data.len()) <= 0x1_0000_0000) by {
        assert(pow256(4) == 0x1_0000_0000);
        assert(pow256(3) == 0x100_0000);
        assert(pow256(2) == 0x1_0000);
        assert(pow256(1) == 0x100);
        assert(pow256(0) == 1);
    }
}

/// The little-endian value of short-item data.
fn item_value(data: &Vec<u8>) -> (v: u32)
    requires
        data@.len() <= 4,
    ensures
        v == le_value(data@),
{
    let mut v: u32 = 0;
    let mut i: usize = data.len();
    proof {
        lemma_le_value_fits(data@);
        assert(data@.subrange(data@.len() as int, data@.len() as int) =~= Seq::<u8>::empty());
    }
    while i > 0
        invariant
            i <= data@.len() <= 4,
            v == le_value(data@.subrange(i as int, data@.len() as int)),
        decreases i,
    {
        let ghost tail = data@.subrange(i - 1, data@.len() as int);
        assert(tail.drop_first() =~= data@.subrange(i as int, data@.len() as int));
        proof {
            lemma_le_value_fits(tail);
        }
        v = v * 256 + data[i - 1] as u32;
        i = i - 1;
    }
    assert(data@.subrange(0, data@.len() as int) =~= data@);
    v
}

/// The usage that a Local `Usage` item adds, qualified by the current usage page.
pub open spec fn qualified_usage(page: Option<u32>, value: u32) -> u32 {
    match page {
        Some(p) => (p << 16u32) | value,
        None => value,
    }
}

/// The report channel a Main data item declares (tag 8 input, 9 output, otherwise feature).
pub open spec fn report_type_of(tag: u8) -> HidReportType {
    if tag == 8 {
        HidReportType::Input
    } else if tag == 9 {
        HidReportType::Output
    } else {
        HidReportType::Feature
    }
}

/// The state of the descriptor walk after some prefix of its items.
pub struct LayoutBuild {
    pub global: GlobalState,
    pub stack: Seq<GlobalState>,
    pub usages: Seq<u32>,
    pub depth: int,
    pub layouts: Map<(HidReportType, u8), LayoutModel>,
}

pub open spec fn initial_build() -> LayoutBuild {
    LayoutBuild {
        global: initial_global(),
        stack: seq![],
        usages: seq![],
        depth: 0,
        layouts: Map::empty(),
    }
}

/// A Main Input, Output or Feature item: append one field to its report layout.
pub open spec fn main_data_step(st: LayoutBuild, tag: u8, offset: usize, value: u32) -> Result<
    LayoutBuild,
    HidValidationError,
> {
    match st.global.report_size {
        None => Err(HidValidationError::MissingReportSize { offset }),
        Some(bit_size) => match st.global.report_count {
            None => Err(HidValidationError::MissingReportCount { offset }),
            Some(count) => {
                let key = (report_type_of(tag), st.global.report_id);
                let layout = if st.layouts.contains_key(key) {
                    st.layouts[key]
                } else {
                    LayoutModel {
                        report_type: key.0,
                        report_id: key.1,
                        payload_bits: 0,
                        fields: seq![],
                    }
                };
                let width = bit_size * count;
                if width > u32::MAX {
                    Err(HidValidationError::ArithmeticOverflow { offset })
                } else if layout.payload_bits + width > u32::MAX {
                    Err(HidValidationError::ArithmeticOverflow { offset })
                } else {
                    let field = FieldModel {
                        bit_offset: layout.payload_bits,
                        bit_size,
                        count,
                        flags: value,
                        variable: value & 2u32 != 0,
                        usages: st.usages,
                    };
                    let updated = LayoutModel {
                        payload_bits: (layout.payload_bits + width) as u32,
                        fields: layout.fields.push(field),
                        ..layout
                    };
                    Ok(LayoutBuild { layouts: st.layouts.insert(key, updated), usages: seq![], ..st })
                }
            },
        },
    }
}

/// The effect of one item on the descriptor walk.
pub open spec fn build_step(st: LayoutBuild, item: (usize, HidItemKind, Seq<u8>)) -> Result<
    LayoutBuild,
    HidValidationError,
> {
    let offset = item.0;
    match item.1 {
        HidItemKind::Long { .. } => Ok(st),
        HidItemKind::Short { item_type, tag } => {
            let value = le_value(item.2) as u32;
            match item_type {
                HidItemType::Global => {
                    if tag == 0 {
                        Ok(LayoutBuild { global: GlobalState { usage_page: Some(value), ..st.global }, ..st })
                    } else if tag == 7 {
                        Ok(LayoutBuild { global: GlobalState { report_size: Some(value), ..st.global }, ..st })
                    } else if tag == 8 {
                        if value == 0 || value > 255 {
                            Err(HidValidationError::ZeroReportId { offset })
                        } else {
                            Ok(LayoutBuild { global: GlobalState { report_id: value as u8, ..st.global }, ..st })
                        }
                    } else if tag == 9 {
                        Ok(LayoutBuild { global: GlobalState { report_count: Some(value), ..st.global }, ..st })
                    } else if tag == 10 {
                        Ok(LayoutBuild { stack: st.stack.push(st.global), ..st })
                    } else if tag == 11 {
                        if st.stack.len() == 0 {
                            Err(HidValidationError::GlobalPopUnderflow { offset })
                        } else {
                            Ok(LayoutBuild { global: st.stack.last(), stack: st.stack.drop_last(), ..st })
                        }
                    } else {
                        Ok(st)
                    }
                },
                HidItemType::Local => {
                    if tag == 0 {
                        Ok(LayoutBuild { usages: st.usages.push(qualified_usage(st.global.usage_page, value)), ..st })
                    } else {
                        Ok(st)
                    }
                },
                HidItemType::Main => {
                    if tag == 10 {
                        if st.depth + 1 > MAX_COLLECTION_DEPTH {
                            Err(HidValidationError::CollectionDepthExceeded { offset })
                        } else {
                            Ok(LayoutBuild { depth: st.depth + 1, usages: seq![], ..st })
                        }
                    } else if tag == 12 {
                        if st.depth == 0 {
                            Err(HidValidationError::CollectionEndWithoutStart { offset })
                        } else {
                            Ok(LayoutBuild { depth: st.depth - 1, usages: seq![], ..st })
                        }
                    } else if tag == 8 || tag == 9 || tag == 11 {
                        main_data_step(st, tag, offset, value)
                    } else {
                        Ok(LayoutBuild { usages: seq![], ..st })
                    }
                },
                HidItemType::Reserved => Ok(st),
            }
        },
    }
}

/// The descriptor walk after the first `n` items.
pub open spec fn build_upto(items: Seq<(usize, HidItemKind, Seq<u8>)>, n: int) -> Result<
    LayoutBuild,
    HidValidationError,
>
    decreases n,
{
    if n <= 0 {
        Ok(initial_build())
    } else {
        match build_upto(items, n - 1) {
            Ok(st) => build_step(st, items[n - 1]),
            Err(e) => Err(e),
        }
    }
}

/// The report layouts a valid item stream declares, keyed by (report type, report ID).
pub open spec fn build_layouts_spec(items: Seq<(usize, HidItemKind, Seq<u8>)>) -> Result<
    Map<(HidReportType, u8), LayoutModel>,
    HidValidationError,
> {
    match build_upto(items, items.len() as int) {
        Err(e) => Err(e),
        Ok(st) => if st.stack.len() > 0 {
            Err(HidValidationError::UnclosedGlobalPush { depth: st.stack.len() as usize })
        } else if st.depth != 0 {
            Err(HidValidationError::UnclosedCollection { depth: st.depth as usize })
        } else {
            Ok(st.layouts)
        },
    }
}

pub open spec fn layout_key(l: LayoutModel) -> (HidReportType, u8) {
    (l.report_type, l.report_id)
}

pub open spec fn key_before(a: (HidReportType, u8), b: (HidReportType, u8)) -> bool {
    report_type_rank(a.0) < report_type_rank(b.0) || (report_type_rank(a.0) == report_type_rank(b.0)
        && a.1 < b.1)
}

/// `v` lists the layouts of `m`, one per key, in key order.
pub open spec fn is_listing(v: Seq<LayoutModel>, m: Map<(HidReportType, u8), LayoutModel>) -> bool {
    &&& forall|i: int, j: int|
        0 <= i < j < v.len() ==> key_before(layout_key(#[trigger] v[i]), layout_key(#[trigger] v[j]))
    &&& forall|i: int|
        0 <= i < v.len() ==> m.contains_key(layout_key(#[trigger] v[i])) && m[layout_key(v[i])]
            == v[i]
    &&& forall|k: (HidReportType, u8)|
        #[trigger] m.contains_key(k) ==> exists|i: int| 0 <= i < v.len() && layout_key(v[i]) == k
}

proof fn lemma_rank_injective(a: HidReportType, b: HidReportType)
    ensures
        report_type_rank(a) == report_type_rank(b) ==> a == b,
{
}

proof fn lemma_listing_update(
    v: Seq<LayoutModel>,
    m: Map<(HidReportType, u8), LayoutModel>,
    pos: int,
    l: LayoutModel,
)
    requires
        is_listing(v, m),
        0 <= pos < v.len(),
        layout_key(l) == layout_key(v[pos]),
    ensures
        is_listing(v.update(pos, l), m.insert(layout_key(l), l)),
{
    let w = v.update(pos, l);
    let m2 = m.insert(layout_key(l), l);
    assert forall|i: int, j: int| 0 <= i < j < w.len() implies key_before(
        layout_key(#[trigger] w[i]),
        layout_key(#[trigger] w[j]),
    ) by {
        assert(key_before(layout_key(v[i]), layout_key(v[j])));
    }
    assert forall|i: int| 0 <= i < w.len() implies m2.contains_key(layout_key(#[trigger] w[i]))
        && m2[layout_key(w[i])] == w[i] by {
        if i != pos {
            assert(key_before(layout_key(v[i]), layout_key(v[pos])) || key_before(
                layout_key(v[pos]),
                layout_key(v[i]),
            )) by {
                if i < pos {
                    assert(key_before(layout_key(v[i]), layout_key(v[pos])));
                } else {
                    assert(key_before(layout_key(v[pos]), layout_key(v[i])));
                }
            }
        }
    }
    assert forall|k: (HidReportType, u8)| #[trigger] m2.contains_key(k) implies exists|i: int|
        0 <= i < w.len() && layout_key(w[i]) == k by {
        if k == layout_key(l) {
            assert(layout_key(w[pos]) == k);
        } else {
            assert(m.contains_key(k));
            let i = choose|i: int| 0 <= i < v.len() && layout_key(v[i]) == k;
            assert(layout_key(w[i]) == k);
        }
    }
}

proof fn lemma_listing_insert(
    v: Seq<LayoutModel>,
    m: Map<(HidReportType, u8), LayoutModel>,
    pos: int,
    l: LayoutModel,
)
    requires
        is_listing(v, m),
        0 <= pos <= v.len(),
        forall|j: int| 0 <= j < pos ==> key_before(layout_key(#[trigger] v[j]), layout_key(l)),
        forall|j: int| pos <= j < v.len() ==> key_before(layout_key(l), layout_key(#[trigger] v[j])),
    ensures
        !m.contains_key(layout_key(l)),
        is_listing(v.insert(pos, l), m.insert(layout_key(l), l)),
{
    let k0 = layout_key(l);
    if m.contains_key(k0) {
        let i = choose|i: int| 0 <= i < v.len() && layout_key(v[i]) == k0;
        if i < pos {
            assert(key_before(layout_key(v[i]), k0));
        } else {
            assert(key_before(k0, layout_key(v[i])));
        }
    }
    let w = v.insert(pos, l);
    let m2 = m.insert(k0, l);
    assert forall|i: int, j: int| 0 <= i < j < w.len() implies key_before(
        layout_key(#[trigger] w[i]),
        layout_key(#[trigger] w[j]),
    ) by {
        if i < pos && j < pos {
            assert(key_before(layout_key(v[i]), layout_key(v[j])));
        } else if i < pos && j == pos {
        } else if i < pos {
            assert(key_before(layout_key(v[i]), k0));
            assert(key_before(k0, layout_key(v[j - 1])));
        } else if i == pos {
            assert(key_before(k0, layout_key(v[j - 1])));
        } else {
            assert(key_before(layout_key(v[i - 1]), layout_key(v[j - 1])));
        }
    }
    assert forall|i: int| 0 <= i < w.len() implies m2.contains_key(layout_key(#[trigger] w[i]))
        && m2[layout_key(w[i])] == w[i] by {
        if i < pos {
            assert(w[i] == v[i]);
            assert(key_before(layout_key(v[i]), k0));
        } else if i > pos {
            assert(w[i] == v[i - 1]);
            assert(key_before(k0, layout_key(v[i - 1])));
        }
    }
    assert forall|k: (HidReportType, u8)| #[trigger] m2.contains_key(k) implies exists|i: int|
        0 <= i < w.len() && layout_key(w[i]) == k by {
        if k == k0 {
            assert(layout_key(w[pos]) == k);
        } else {
            assert(m.contains_key(k));
            let i = choose|i: int| 0 <= i < v.len() && layout_key(v[i]) == k;
            if i < pos {
                assert(layout_key(w[i]) == k);
            } else {
                assert(layout_key(w[i + 1]) == k);
            }
        }
    }
}

pub open spec fn build_matches(
    st: LayoutBuild,
    global: GlobalState,
    stack: Seq<GlobalState>,
    usages: Seq<u32>,
    depth: usize,
    layouts: Seq<HidReportLayout>,
) -> bool {
    &&& st.global == global
    &&& st.stack == stack
    &&& st.usages == usages
    &&& st.depth == depth as int
    &&& is_listing(layouts_view(layouts), st.layouts)
}

// One pass intentionally mirrors HID's stateful item grammar.
fn build_layouts(items: &Vec<HidItem>) -> (r: Result<Vec<HidReportLayout>, HidValidationError>)
    requires
        forall|i: int|
            0 <= i < items@.len() ==> (#[trigger] items@[i]).kind is Short ==> items@[i].data@.len()
                <= 4,
    ensures
        match (r, build_layouts_spec(items_view(items@))) {
            (Ok(v), Ok(m)) => is_listing(layouts_view(v@), m),
            (Err(e), Err(e2)) => e == e2,
            _ => false,
        },
{
    let ghost iv = items_view(items@);
    let mut global = GlobalState {
        usage_page: None,
        report_size: None,
        report_count: None,
        report_id: 0,
    };
    let mut global_stack: Vec<GlobalState> = Vec::new();
    let mut usages: Vec<u32> = Vec::new();
    let mut collection_depth: usize = 0;
    let mut layouts: Vec<HidReportLayout> = Vec::new();
    let mut index: usize = 0;
    assert(build_matches(initial_build(), global, global_stack@, usages@, collection_depth, layouts@)) by {
        assert(layouts_view(layouts@) =~= Seq::<LayoutModel>::empty());
        assert(global_stack@ =~= Seq::<GlobalState>::empty());
        assert(usages@ =~= Seq::<u32>::empty());
    }
    while index < items.len()
        invariant
            iv == items_view(items@),
            forall|i: int|
                0 <= i < items@.len() ==> (#[trigger] items@[i]).kind is Short
                    ==> items@[i].data@.len() <= 4,
            index <= items@.len(),
            collection_depth <= MAX_COLLECTION_DEPTH,
            build_upto(iv, index as int) matches Ok(st) && build_matches(
                st,
                global,
                global_stack@,
                usages@,
                collection_depth,
                layouts@,
            ),
        decreases items@.len() - index,
    {
        let item = &items[index];
        let ghost st = build_upto(iv, index as int)->Ok_0;
        assert(iv[index as int] == item@);
        assert(build_upto(iv, index + 1) == build_step(st, item@));
        let step = apply_item(
            item,
            &mut global,
            &mut global_stack,
            &mut usages,
            &mut collection_depth,
            &mut layouts,
            Ghost(st),
        );
        if let Err(e) = step {
            proof {
                lemma_build_error_final(iv, index + 1);
            }
            return Err(e);
        }
        index = index + 1;
    }
    assert(iv.len() == index);
    if global_stack.len() > 0 {
        return Err(HidValidationError::UnclosedGlobalPush { depth: global_stack.len() });
    }
    if collection_depth != 0 {
        return Err(HidValidationError::UnclosedCollection { depth: collection_depth });
    }
    Ok(layouts)
}

proof fn lemma_build_error_final(items: Seq<(usize, HidItemKind, Seq<u8>)>, k: int)
    requires
        0 <= k <= items.len(),
        build_upto(items, k) is Err,
    ensures
        build_layouts_spec(items) == Err::<Map<(HidReportType, u8), LayoutModel>, _>(
            build_upto(items, k)->Err_0,
        ),
    decreases items.len() - k,
{
    if k < items.len() {
        assert(build_upto(items, k + 1) == build_upto(items, k));
        lemma_build_error_final(items, k + 1);
    }
}

/// Applies one item to the walk state, exactly as `build_step` describes.
fn apply_item(
    item: &HidItem,
    global: &mut GlobalState,
    global_stack: &mut Vec<GlobalState>,
    usages: &mut Vec<u32>,
    collection_depth: &mut usize,
    layouts: &mut Vec<HidReportLayout>,
    Ghost(st): Ghost<LayoutBuild>,
) -> (r: Result<(), HidValidationError>)
    requires
        item.kind is Short ==> item.data@.len() <= 4,
        *old(collection_depth) <= MAX_COLLECTION_DEPTH,
        build_matches(st, *old(global), old(global_stack)@, old(usages)@, *old(collection_depth), old(layouts)@),
    ensures
        *final(collection_depth) <= MAX_COLLECTION_DEPTH,
        match (r, build_step(st, item@)) {
            (Ok(()), Ok(next)) => build_matches(
                next,
                *final(global),
                final(global_stack)@,
                final(usages)@,
                *final(collection_depth),
                final(layouts)@,
            ),
            (Err(e), Err(e2)) => e == e2,
            _ => false,
        },
{
    let offset = item.offset;
    match item.kind {
        HidItemKind::Long { .. } => {},
        HidItemKind::Short { item_type, tag } => {
            let value = item_value(&item.data);
            match item_type {
                HidItemType::Global => {
                    if tag == 0 {
                        global.usage_page = Some(value);
                    } else if tag == 7 {
                        global.report_size = Some(value);
                    } else if tag == 8 {
                        if value == 0 || value > 255 {
                            return Err(HidValidationError::ZeroReportId { offset });
                        }
                        global.report_id = value as u8;
                    } else if tag == 9 {
                        global.report_count = Some(value);
                    } else if tag == 10 {
                        global_stack.push(*global);
                    } else if tag == 11 {
                        match global_stack.pop() {
                            Some(saved) => {
                                *global = saved;
                            },
                            None => {
                                return Err(HidValidationError::GlobalPopUnderflow { offset });
                            },
                        }
                    }
                },
                HidItemType::Local => {
                    if tag == 0 {
                        let usage = match global.usage_page {
                            Some(page) => (page << 16u32) | value,
                            None => value,
                        };
                        usages.push(usage);
                    }
                },
                HidItemType::Main => {
                    if tag == 10 {
                        if *collection_depth + 1 > MAX_COLLECTION_DEPTH {
                            return Err(HidValidationError::CollectionDepthExceeded { offset });
                        }
                        *collection_depth = *collection_depth + 1;
                        *usages = Vec::new();
                    } else if tag == 12 {
                        if *collection_depth == 0 {
                            return Err(HidValidationError::CollectionEndWithoutStart { offset });
                        }
                        *collection_depth = *collection_depth - 1;
                        *usages = Vec::new();
                    } else if tag == 8 || tag == 9 || tag == 11 {
                        let bit_size = match global.report_size {
                            Some(size) => size,
                            None => {
                                return Err(HidValidationError::MissingReportSize { offset });
                            },
                        };
                        let count = match global.report_count {
                            Some(count) => count,
                            None => {
                                return Err(HidValidationError::MissingReportCount { offset });
                            },
                        };
                        let report_type = if tag == 8 {
                            HidReportType::Input
                        } else if tag == 9 {
                            HidReportType::Output
                        } else {
                            HidReportType::Feature
                        };
                        let mut taken: Vec<u32> = Vec::new();
                        std::mem::swap(&mut taken, usages);
                        let added = add_field(
                            layouts,
                            Ghost(st.layouts),
                            report_type,
                            global.report_id,
                            bit_size,
                            count,
                            value,
                            taken,
                            offset,
                        );
                        if let Err(e) = added {
                            return Err(e);
                        }
                    } else {
                        *usages = Vec::new();
                    }
                },
                HidItemType::Reserved => {},
            }
        },
    }
    proof {
        if let Ok(next) = build_step(st, item@) {
            assert(final(global_stack)@ =~= next.stack);
            assert(final(usages)@ =~= next.usages);
        }
    }
    Ok(())
}

/// Appends one field to the layout for `(report_type, report_id)`, creating it in key order.
fn add_field(
    layouts: &mut Vec<HidReportLayout>,
    Ghost(m): Ghost<Map<(HidReportType, u8), LayoutModel>>,
    report_type: HidReportType,
    report_id: u8,
    bit_size: u32,
    count: u32,
    value: u32,
    usages: Vec<u32>,
    offset: usize,
) -> (r: Result<(), HidValidationError>)
    requires
        is_listing(layouts_view(old(layouts)@), m),
    ensures
        ({
            let st = LayoutBuild {
                global: GlobalState {
                    usage_page: None,
                    report_size: Some(bit_size),
                    report_count: Some(count),
                    report_id,
                },
                stack: seq![],
                usages: usages@,
                depth: 0,
                layouts: m,
            };
            let tag: u8 = match report_type {
                HidReportType::Input => 8,
                HidReportType::Output => 9,
                HidReportType::Feature => 11,
            };
            match (r, main_data_step(st, tag, offset, value)) {
                (Ok(()), Ok(next)) => is_listing(layouts_view(final(layouts)@), next.layouts),
                (Err(e), Err(e2)) => e == e2,
                _ => false,
            }
        }),
{
    let ghost v = layouts_view(layouts@);
    let key = (report_type, report_id);
    let mut pos: usize = 0;
    while pos < layouts.len() && (report_type_rank_exec(layouts[pos].report_type)
        < report_type_rank_exec(report_type) || (report_type_rank_exec(layouts[pos].report_type)
        == report_type_rank_exec(report_type) && layouts[pos].report_id < report_id))
        invariant
            pos <= layouts@.len(),
            v == layouts_view(layouts@),
            key == (report_type, report_id),
            forall|j: int| 0 <= j < pos ==> key_before(layout_key(#[trigger] v[j]), key),
        decreases layouts@.len() - pos,
    {
        assert(v[pos as int] == layouts@[pos as int]@);
        pos = pos + 1;
    }
    let found = pos < layouts.len() && layouts[pos].report_type == report_type
        && layouts[pos].report_id == report_id;
    let current_bits: u32 = if found {
        layouts[pos].payload_bits
    } else {
        0
    };
    proof {
        if found {
            assert(layout_key(v[pos as int]) == key);
            assert(m.contains_key(key));
            assert(m[key] == v[pos as int]);
        } else {
            assert forall|j: int| pos <= j < v.len() implies key_before(key, layout_key(#[trigger] v[j])) by {
                lemma_rank_injective(v[pos as int].report_type, report_type);
                if j > pos {
                    assert(key_before(layout_key(v[pos as int]), layout_key(v[j])));
                }
            }
            let probe = LayoutModel { report_type, report_id, payload_bits: 0, fields: seq![] };
            lemma_listing_insert(v, m, pos as int, probe);
        }
    }
    let width = match bit_size.checked_mul(count) {
        Some(w) => w,
        None => {
            return Err(HidValidationError::ArithmeticOverflow { offset });
        },
    };
    let next = match current_bits.checked_add(width) {
        Some(n) => n,
        None => {
            return Err(HidValidationError::ArithmeticOverflow { offset });
        },
    };
    let field = HidField {
        bit_offset: current_bits,
        bit_size,
        count,
        flags: value,
        variable: value & 2u32 != 0,
        usages,
    };
    let ghost fm = field@;
    if found {
        let mut layout = layouts.remove(pos);
        let ghost before = layout@;
        layout.fields.push(field);
        layout.payload_bits = next;
        proof {
            assert(fields_view(layout.fields@) =~= before.fields.push(fm));
        }
        layouts.insert(pos, layout);
        proof {
            let l2 = layout@;
            assert(layouts_view(layouts@) =~= v.update(pos as int, l2));
            lemma_listing_update(v, m, pos as int, l2);
        }
    } else {
        let mut fields: Vec<HidField> = Vec::new();
        fields.push(field);
        let layout = HidReportLayout { report_type, report_id, payload_bits: next, fields };
        proof {
            assert(fields_view(layout.fields@) =~= seq![fm]);
            assert(seq![fm] =~= Seq::<FieldModel>::empty().push(fm));
        }
        let ghost l2 = layout@;
        layouts.insert(pos, layout);
        proof {
            assert(layouts_view(layouts@) =~= v.insert(pos as int, l2));
            assert forall|j: int| pos <= j < v.len() implies key_before(key, layout_key(#[trigger] v[j])) by {
                lemma_rank_injective(v[pos as int].report_type, report_type);
                if j > pos {
                    assert(key_before(layout_key(v[pos as int]), layout_key(v[j])));
                }
            }
            lemma_listing_insert(v, m, pos as int, l2);
        }
    }
    Ok(())
}

fn report_type_rank_exec(t: HidReportType) -> (r: u8)
    ensures
        r == report_type_rank(t),
{
    match t {
        HidReportType::Input => 0,
        HidReportType::Output => 1,
        HidReportType::Feature => 2,
    }
}


/// Error returned by [`HidDescriptor::parse`].
#[derive(Debug, Clone, Copy, PartialEq, Eq, Structural)]
pub enum HidDescriptorError {
    Parse(HidParseError),
    Validation(HidValidationError),
}

/// Index of the first layout with the given key at or after `start`, or -1.
pub open spec fn find_layout(ls: Seq<LayoutModel>, t: HidReportType, id: u8, start: int) -> int
    decreases ls.len() - start,
{
    if start < 0 || start >= ls.len() {
        -1
    } else if ls[start].report_type == t && ls[start].report_id == id {
        start
    } else {
        find_layout(ls, t, id, start + 1)
    }
}

proof fn lemma_find_layout_range(ls: Seq<LayoutModel>, t: HidReportType, id: u8, start: int)
    requires
        0 <= start,
    ensures
        find_layout(ls, t, id, start) == -1 || (start <= find_layout(ls, t, id, start) < ls.len()
            && ls[find_layout(ls, t, id, start)].report_type == t
            && ls[find_layout(ls, t, id, start)].report_id == id),
    decreases ls.len() - start,
{
    if start < ls.len() && !(ls[start].report_type == t && ls[start].report_id == id) {
        lemma_find_layout_range(ls, t, id, start + 1);
    }
}

impl HidDescriptor {
    /// Parse and validate a generic HID descriptor.
    ///
    /// Succeeds exactly when the item grammar accepts `bytes` and the item
    /// stream passes validation; the layouts list every declared report in
    /// (report type, report ID) order.
    pub fn parse(bytes: &[u8]) -> (r: Result<Self, HidDescriptorError>)
        ensures
            match r {
                Ok(d) => {
                    &&& items_from(bytes@, 0) == Ok::<_, HidParseError>(items_view(d.items@))
                    &&& build_layouts_spec(items_view(d.items@)) matches Ok(m)
                    &&& is_listing(layouts_view(d.layouts@), m)
                },
                Err(HidDescriptorError::Parse(e)) => items_from(bytes@, 0) == Err::<
                    Seq<(usize, HidItemKind, Seq<u8>)>,
                    _,
                >(e),
                Err(HidDescriptorError::Validation(e)) => {
                    &&& items_from(bytes@, 0) matches Ok(items)
                    &&& build_layouts_spec(items) == Err::<Map<(HidReportType, u8), LayoutModel>, _>(e)
                },
            },
    {
        let items = match parse_items(bytes) {
            Ok(items) => items,
            Err(e) => {
                return Err(HidDescriptorError::Parse(e));
            },
        };
        proof {
            lemma_short_items_small(bytes@, 0);
            assert forall|i: int| 0 <= i < items@.len() && (#[trigger] items@[i]).kind is Short implies items@[i].data@.len() <= 4 by {
                assert(items_view(items@)[i] == items@[i]@);
            }
        }
        let layouts = match build_layouts(&items) {
            Ok(layouts) => layouts,
            Err(e) => {
                return Err(HidDescriptorError::Validation(e));
            },
        };
        Ok(HidDescriptor { items, layouts })
    }

    /// The first layout declared for `(report_type, report_id)`, if any.
    pub fn layout(&self, report_type: HidReportType, report_id: u8) -> (r: Option<&HidReportLayout>)
        ensures
            ({
                let i = find_layout(layouts_view(self.layouts@), report_type, report_id, 0);
                if i >= 0 {
                    r == Some(&self.layouts@[i])
                } else {
                    r is None
                }
            }),
    {
        let ghost ls = layouts_view(self.layouts@);
        let mut i: usize = 0;
        while i < self.layouts.len()
            invariant
                i <= self.layouts@.len(),
                ls == layouts_view(self.layouts@),
                find_layout(ls, report_type, report_id, 0) == find_layout(ls, report_type, report_id, i as int),
            decreases self.layouts@.len() - i,
        {
            assert(ls[i as int] == self.layouts@[i as int]@);
            if self.layouts[i].report_type == report_type && self.layouts[i].report_id == report_id {
                return Some(&self.layouts[i]);
            }
            i = i + 1;
        }
        None
    }
}

/// Opaque raw report bytes. Constructing an Output frame does not transmit it.
#[derive(Debug, PartialEq, Eq)]
pub struct HidReportFrame {
    pub report_type: HidReportType,
    pub bytes: Vec<u8>,
}

impl Clone for HidReportFrame {
    fn clone(&self) -> (r: Self)
        ensures
            r.report_type == self.report_type,
            r.bytes@ == self.bytes@,
    {
        let bytes = self.bytes.clone();
        assert(bytes@ =~= self.bytes@);
        HidReportFrame { report_type: self.report_type, bytes }
    }
}

/// A report selected against a descriptor layout without normalizing bytes.
#[derive(Debug, PartialEq, Eq)]
pub struct FramedHidReport<'a> {
    pub report_id: u8,
    pub layout: &'a HidReportLayout,
    pub payload: &'a [u8],
    pub trailing: &'a [u8],
}

/// Report framing failures.
#[derive(Debug, Clone, Copy, PartialEq, Eq, Structural)]
pub enum HidReportError {
    MissingReportId,
    UnknownReportId { report_type: HidReportType, report_id: u8 },
    ShortReport { expected: usize, actual: usize },
}

/// Whether any layout of report type `t` carries a nonzero report ID.
pub open spec fn has_report_ids(ls: Seq<LayoutModel>, t: HidReportType) -> bool {
    exists|i: int| 0 <= i < ls.len() && (#[trigger] ls[i]).report_type == t && ls[i].report_id != 0
}

/// Report framing: `(report ID, layout index, payload start, payload length)`.
///
/// When any layout of the frame's type has a nonzero ID, the first byte is the
/// report ID; otherwise the ID is 0 and the whole frame is payload. The payload
/// holds the layout's minimum byte count; further bytes are trailing.
pub open spec fn frame_spec(ls: Seq<LayoutModel>, t: HidReportType, bytes: Seq<u8>) -> Result<
    (u8, int, int, int),
    HidReportError,
> {
    let has = has_report_ids(ls, t);
    if has && bytes.len() == 0 {
        Err(HidReportError::MissingReportId)
    } else {
        let id: u8 = if has {
            bytes[0]
        } else {
            0
        };
        let start: int = if has {
            1
        } else {
            0
        };
        let li = find_layout(ls, t, id, 0);
        if li < 0 {
            Err(HidReportError::UnknownReportId { report_type: t, report_id: id })
        } else {
            let expected = payload_bytes(ls[li].payload_bits);
            let actual = bytes.len() - start;
            if actual < expected {
                Err(HidReportError::ShortReport { expected: expected as usize, actual: actual as usize })
            } else {
                Ok((id, li, start, expected))
            }
        }
    }
}

/// Select a descriptor layout for opaque report bytes.
///
/// The payload and trailing slices together are the frame after its report
/// ID, and the payload is exactly the layout's minimum byte count.
pub fn frame_report<'a>(descriptor: &'a HidDescriptor, frame: &'a HidReportFrame) -> (r: Result<
    FramedHidReport<'a>,
    HidReportError,
>)
    ensures
        match (r, frame_spec(layouts_view(descriptor.layouts@), frame.report_type, frame.bytes@)) {
            (Ok(f), Ok((id, li, start, expected))) => {
                &&& f.report_id == id
                &&& *f.layout == descriptor.layouts@[li]
                &&& f.payload@ == frame.bytes@.subrange(start, start + expected)
                &&& f.trailing@ == frame.bytes@.subrange(start + expected, frame.bytes@.len() as int)
                &&& f.payload@ + f.trailing@ == frame.bytes@.subrange(start, frame.bytes@.len() as int)
                &&& f.payload@.len() == payload_bytes(f.layout.payload_bits)
            },
            (Err(e), Err(e2)) => e == e2,
            _ => false,
        },
{
    let ghost ls = layouts_view(descriptor.layouts@);
    let mut has_ids = false;
    let mut i: usize = 0;
    while i < descriptor.layouts.len()
        invariant
            i <= descriptor.layouts@.len(),
            ls == layouts_view(descriptor.layouts@),
            has_ids == exists|j: int|
                0 <= j < i && (#[trigger] ls[j]).report_type == frame.report_type && ls[j].report_id
                    != 0,
        decreases descriptor.layouts@.len() - i,
    {
        assert(ls[i as int] == descriptor.layouts@[i as int]@);
        if descriptor.layouts[i].report_type == frame.report_type && descriptor.layouts[i].report_id != 0 {
            has_ids = true;
        }
        i = i + 1;
    }
    assert(has_ids == has_report_ids(ls, frame.report_type));
    let bytes = frame.bytes.as_slice();
    let (report_id, payload): (u8, &[u8]) = if has_ids {
        if bytes.len() == 0 {
            return Err(HidReportError::MissingReportId);
        }
        (bytes[0], slice_subrange(bytes, 1, bytes.len()))
    } else {
        (0, bytes)
    };
    proof {
        lemma_find_layout_range(ls, frame.report_type, report_id, 0);
        if !has_ids {
            assert(frame.bytes@.subrange(0, frame.bytes@.len() as int) =~= frame.bytes@);
        }
    }
    let layout = match descriptor.layout(frame.report_type, report_id) {
        Some(layout) => layout,
        None => {
            return Err(HidReportError::UnknownReportId { report_type: frame.report_type, report_id });
        },
    };
    let expected = layout.minimum_payload_bytes();
    if payload.len() < expected {
        return Err(HidReportError::ShortReport { expected, actual: payload.len() });
    }
    let head = slice_subrange(payload, 0, expected);
    let tail = slice_subrange(payload, expected, payload.len());
    proof {
        let start: int = if has_ids { 1 } else { 0 };
        assert(head@ =~= frame.bytes@.subrange(start, start + expected));
        assert(tail@ =~= frame.bytes@.subrange(start + expected, frame.bytes@.len() as int));
        assert(head@ + tail@ =~= frame.bytes@.subrange(start, frame.bytes@.len() as int));
    }
    Ok(FramedHidReport { report_id, layout, payload: head, trailing: tail })
}

/// Serializable, non-identifying USB/Bluetooth device identity evidence.
#[derive(Debug, Clone, Copy, PartialEq, Eq, Structural)]
pub struct FixtureDeviceIdentity {
    pub bus_type: u16,
    pub vendor_id: u16,
    pub product_id: u16,
    pub version: u16,
}

/// Serializable subset of transport values used in shared fixture evidence.
#[derive(Debug, Clone, Copy, PartialEq, Eq, Structural)]
pub enum TransportFixture {
    Usb,
    Bluetooth,
    Virtual,
    Other,
    Unknown,
}

/// The fixture form of a transport: `Other` forgets its bus number.
pub open spec fn transport_fixture_of(value: Transport) -> TransportFixture {
    match value {
        Transport::Usb => TransportFixture::Usb,
        Transport::Bluetooth => TransportFixture::Bluetooth,
        Transport::Virtual => TransportFixture::Virtual,
        Transport::Other(_) => TransportFixture::Other,
        Transport::Unknown => TransportFixture::Unknown,
    }
}

impl From<Transport> for TransportFixture {
    fn from(value: Transport) -> (r: Self)
        ensures
            r == transport_fixture_of(value),
    {
        match value {
            Transport::Usb => TransportFixture::Usb,
            Transport::Bluetooth => TransportFixture::Bluetooth,
            Transport::Virtual => TransportFixture::Virtual,
            Transport::Other(_) => TransportFixture::Other,
            Transport::Unknown => TransportFixture::Unknown,
        }
    }
}

impl vstd::std_specs::convert::FromSpecImpl<Transport> for TransportFixture {
    open spec fn obeys_from_spec() -> bool {
        true
    }

    open spec fn from_spec(v: Transport) -> TransportFixture {
        transport_fixture_of(v)
    }
}

/// Evidence used to pair synthetic HID and evdev endpoints. It contains no path.
#[derive(Debug, Clone, Copy, PartialEq, Eq, Structural)]
pub struct EndpointEvidence {
    pub identity: FixtureDeviceIdentity,
    pub transport: TransportFixture,
    /// Opaque, fixture-local topology evidence. It is never a host path.
    pub topology_token: Option<u64>,
    /// Opaque, fixture-local connection evidence. It is never a serial or address.
    pub connection_token: Option<u64>,
}

/// One fixture endpoint identified only by a deterministic fixture-local index.
#[derive(Debug, Clone, Copy, PartialEq, Eq, Structural)]
pub struct EndpointFixture {
    pub fixture_index: usize,
    pub evidence: EndpointEvidence,
}

/// Result of pairing one HID fixture endpoint to evdev fixture endpoints.
#[derive(Debug, PartialEq, Eq)]
pub enum EndpointPairing {
    Unique { evdev_index: usize },
    Ambiguous { evdev_indices: Vec<usize> },
    Unmatched,
}

/// How strongly two endpoints' evidence agrees: none unless identity and
/// transport match; then 1, plus 2 for a shared topology token and 4 for a
/// shared connection token.
pub open spec fn evidence_score(left: EndpointEvidence, right: EndpointEvidence) -> Option<u8> {
    if left.identity != right.identity || left.transport != right.transport {
        None
    } else {
        let topology: int = if left.topology_token is Some && left.topology_token
            == right.topology_token {
            2
        } else {
            0
        };
        let connection: int = if left.connection_token is Some && left.connection_token
            == right.connection_token {
            4
        } else {
            0
        };
        Some((1 + topology + connection) as u8)
    }
}

fn score_evidence(left: &EndpointEvidence, right: &EndpointEvidence) -> (r: Option<u8>)
    ensures
        r == evidence_score(*left, *right),
{
    if left.identity != right.identity || left.transport != right.transport {
        return None;
    }
    let mut score: u8 = 1;
    if left.topology_token.is_some() && left.topology_token == right.topology_token {
        score = score + 2;
    }
    if left.connection_token.is_some() && left.connection_token == right.connection_token {
        score = score + 4;
    }
    Some(score)
}

/// The highest score any candidate reaches, or -1 when none matches.
pub open spec fn best_score(hid: EndpointFixture, evdev: Seq<EndpointFixture>) -> int
    decreases evdev.len(),
{
    if evdev.len() == 0 {
        -1
    } else {
        let rest = best_score(hid, evdev.drop_last());
        match evidence_score(hid.evidence, evdev.last().evidence) {
            Some(score) => if score as int > rest {
                score as int
            } else {
                rest
            },
            None => rest,
        }
    }
}

/// Fixture indices of the candidates that reach `best`, in candidate order.
pub open spec fn best_indices(hid: EndpointFixture, evdev: Seq<EndpointFixture>, best: int) -> Seq<
    usize,
>
    decreases evdev.len(),
{
    if evdev.len() == 0 {
        seq![]
    } else {
        let rest = best_indices(hid, evdev.drop_last(), best);
        match evidence_score(hid.evidence, evdev.last().evidence) {
            Some(score) => if score as int == best {
                rest.push(evdev.last().fixture_index)
            } else {
                rest
            },
            None => rest,
        }
    }
}

pub open spec fn index_le() -> spec_fn(usize, usize) -> bool {
    |a: usize, b: usize| a <= b
}

/// The pairing: unmatched without evidence; otherwise the candidates with the
/// best score, by ascending fixture index, unique when there is one of them.
pub open spec fn pairing_spec(hid: EndpointFixture, evdev: Seq<EndpointFixture>) -> (bool, Seq<usize>) {
    let best = best_score(hid, evdev);
    if best < 0 {
        (false, seq![])
    } else {
        (true, sort_by(best_indices(hid, evdev, best), index_le()))
    }
}

proof fn lemma_best_indices_nonempty(hid: EndpointFixture, evdev: Seq<EndpointFixture>)
    requires
        best_score(hid, evdev) >= 0,
    ensures
        best_indices(hid, evdev, best_score(hid, evdev)).len() > 0,
    decreases evdev.len(),
{
    let best = best_score(hid, evdev);
    let rest = best_score(hid, evdev.drop_last());
    if rest >= 0 && rest == best {
        lemma_best_indices_nonempty(hid, evdev.drop_last());
        lemma_best_indices_grows(hid, evdev, best);
    }
}

proof fn lemma_best_indices_grows(hid: EndpointFixture, evdev: Seq<EndpointFixture>, best: int)
    requires
        evdev.len() > 0,
    ensures
        best_indices(hid, evdev, best).len() >= best_indices(hid, evdev.drop_last(), best).len(),
{
}

/// Insert `x` into `v` after every element not greater than it.
fn insert_index(v: &mut Vec<usize>, x: usize)
    ensures
        final(v)@ == insert_by(old(v)@, x, index_le()),
{
    let ghost s = v@;
    let mut pos = v.len();
    while pos > 0 && v[pos - 1] > x
        invariant
            pos <= v@.len(),
            v@ == s,
            forall|j: int| pos <= j < s.len() ==> !(index_le())(#[trigger] s[j], x),
        decreases pos,
    {
        pos = pos - 1;
    }
    proof {
        lemma_insert_by_split(s, x, index_le(), pos as int);
    }
    v.insert(pos, x);
    assert(v@ =~= s.subrange(0, pos as int).push(x) + s.subrange(pos as int, s.len() as int));
}

/// Pair endpoints only from explicit supplied evidence, never local path order.
pub fn pair_endpoint(hid: &EndpointFixture, evdev: &[EndpointFixture]) -> (r: EndpointPairing)
    ensures
        ({
            let (matched, indices) = pairing_spec(*hid, evdev@);
            match r {
                EndpointPairing::Unmatched => !matched,
                EndpointPairing::Unique { evdev_index } => matched && indices == seq![evdev_index],
                EndpointPairing::Ambiguous { evdev_indices } => matched && indices.len() > 1
                    && evdev_indices@ == indices,
            }
        }),
{
    let mut best: i32 = -1;
    let mut i: usize = 0;
    while i < evdev.len()
        invariant
            i <= evdev@.len(),
            best == best_score(*hid, evdev@.subrange(0, i as int)),
            -1 <= best <= 7,
        decreases evdev@.len() - i,
    {
        assert(evdev@.subrange(0, i + 1).drop_last() =~= evdev@.subrange(0, i as int));
        match score_evidence(&hid.evidence, &evdev[i].evidence) {
            Some(score) => {
                if score as i32 > best {
                    best = score as i32;
                }
            },
            None => {},
        }
        i = i + 1;
    }
    assert(evdev@.subrange(0, evdev@.len() as int) =~= evdev@);
    if best < 0 {
        return EndpointPairing::Unmatched;
    }
    let mut sorted: Vec<usize> = Vec::new();
    let mut k: usize = 0;
    while k < evdev.len()
        invariant
            k <= evdev@.len(),
            best == best_score(*hid, evdev@),
            sorted@ == sort_by(best_indices(*hid, evdev@.subrange(0, k as int), best as int), index_le()),
        decreases evdev@.len() - k,
    {
        let ghost prefix = evdev@.subrange(0, k + 1);
        assert(prefix.drop_last() =~= evdev@.subrange(0, k as int));
        match score_evidence(&hid.evidence, &evdev[k].evidence) {
            Some(score) => {
                let ghost old_bi = best_indices(*hid, evdev@.subrange(0, k as int), best as int);
                if score as i32 == best {
                    insert_index(&mut sorted, evdev[k].fixture_index);
                    let ghost new_bi = old_bi.push(evdev@[k as int].fixture_index);
                    assert(best_indices(*hid, prefix, best as int) == new_bi);
                    assert(new_bi.drop_last() =~= old_bi);
                    assert(sort_by(new_bi, index_le()) == insert_by(sort_by(old_bi, index_le()), evdev@[k as int].fixture_index, index_le()));
                } else {
                    assert(best_indices(*hid, prefix, best as int) == old_bi);
                }
            },
            None => {
                assert(best_indices(*hid, prefix, best as int) == best_indices(*hid, evdev@.subrange(0, k as int), best as int));
            },
        }
        k = k + 1;
    }
    proof {
        lemma_best_indices_nonempty(*hid, evdev@);
        crate::sorting::lemma_sort_by_len(best_indices(*hid, evdev@, best as int), index_le());
    }
    if sorted.len() == 1 {
        let only = sorted[0];
        assert(sorted@ =~= seq![only]);
        EndpointPairing::Unique { evdev_index: only }
    } else {
        EndpointPairing::Ambiguous { evdev_indices: sorted }
    }
}

/// Pairing is deterministic: ambiguous candidates are reported in ascending
/// fixture-index order and are exactly the best-scoring candidates.
pub proof fn law_pairing_order(hid: EndpointFixture, evdev: Seq<EndpointFixture>)
    requires
        pairing_spec(hid, evdev).0,
    ensures
        sorted_by(pairing_spec(hid, evdev).1, index_le()),
        pairing_spec(hid, evdev).1.to_multiset() == best_indices(
            hid,
            evdev,
            best_score(hid, evdev),
        ).to_multiset(),
{
    assert(is_total_preorder(index_le()));
    lemma_sort_by_sorted(best_indices(hid, evdev, best_score(hid, evdev)), index_le());
}

/// Versioned, sanitized HID replay fixture.
#[derive(Debug, PartialEq, Eq)]
pub struct HidFixture {
    pub format_version: u32,
    pub synthetic: bool,
    pub descriptor: Vec<u8>,
    pub reports: Vec<HidReportFrame>,
    pub hid_endpoint: EndpointFixture,
    pub evdev_endpoints: Vec<EndpointFixture>,
}

impl HidFixture {
    /// A version-1 fixture holding the given evidence.
    pub fn new(
        synthetic: bool,
        descriptor: Vec<u8>,
        reports: Vec<HidReportFrame>,
        hid_endpoint: EndpointFixture,
        evdev_endpoints: Vec<EndpointFixture>,
    ) -> (f: Self)
        ensures
            f.format_version == 1,
            f.synthetic == synthetic,
            f.descriptor == descriptor,
            f.reports == reports,
            f.hid_endpoint == hid_endpoint,
            f.evdev_endpoints == evdev_endpoints,
    {
        HidFixture { format_version: 1, synthetic, descriptor, reports, hid_endpoint, evdev_endpoints }
    }
}


/// `{name}: {value}` as `Debug` prints a struct field.
pub open spec fn field_text(name: Seq<char>, value: nat) -> Seq<char> {
    name + ": "@ + decimal(value)
}

/// The `Debug` text of a validation error, such as `GlobalPopUnderflow { offset: 3 }`.
pub open spec fn validation_debug(e: HidValidationError) -> Seq<char> {
    match e {
        HidValidationError::GlobalPopUnderflow { offset } => "GlobalPopUnderflow { "@ + field_text("offset"@, offset as nat) + " }"@,
        HidValidationError::UnclosedGlobalPush { depth } => "UnclosedGlobalPush { "@ + field_text("depth"@, depth as nat) + " }"@,
        HidValidationError::CollectionEndWithoutStart { offset } => "CollectionEndWithoutStart { "@ + field_text("offset"@, offset as nat) + " }"@,
        HidValidationError::UnclosedCollection { depth } => "UnclosedCollection { "@ + field_text("depth"@, depth as nat) + " }"@,
        HidValidationError::CollectionDepthExceeded { offset } => "CollectionDepthExceeded { "@ + field_text("offset"@, offset as nat) + " }"@,
        HidValidationError::ZeroReportId { offset } => "ZeroReportId { "@ + field_text("offset"@, offset as nat) + " }"@,
        HidValidationError::MissingReportSize { offset } => "MissingReportSize { "@ + field_text("offset"@, offset as nat) + " }"@,
        HidValidationError::MissingReportCount { offset } => "MissingReportCount { "@ + field_text("offset"@, offset as nat) + " }"@,
        HidValidationError::ArithmeticOverflow { offset } => "ArithmeticOverflow { "@ + field_text("offset"@, offset as nat) + " }"@,
    }
}

/// The display text of a descriptor error.
pub open spec fn descriptor_error_text(e: HidDescriptorError) -> Seq<char> {
    match e {
        HidDescriptorError::Parse(HidParseError::TruncatedShortItem { offset, expected }) =>
            "short HID item at "@ + decimal(offset as nat) + " needs "@ + decimal(expected as nat) + " data bytes"@,
        HidDescriptorError::Parse(HidParseError::TruncatedLongItem { offset, expected }) =>
            "long HID item at "@ + decimal(offset as nat) + " needs "@ + decimal(expected as nat) + " data bytes"@,
        HidDescriptorError::Validation(v) => "invalid HID descriptor: "@ + validation_debug(v),
    }
}

/// The `Debug` text of a report type.
pub open spec fn report_type_debug(t: HidReportType) -> Seq<char> {
    match t {
        HidReportType::Input => "Input"@,
        HidReportType::Output => "Output"@,
        HidReportType::Feature => "Feature"@,
    }
}

/// The display text of a report framing error.
pub open spec fn report_error_text(e: HidReportError) -> Seq<char> {
    "invalid HID report: "@ + match e {
        HidReportError::MissingReportId => "MissingReportId"@,
        HidReportError::UnknownReportId { report_type, report_id } => "UnknownReportId { report_type: "@
            + report_type_debug(report_type) + ", "@ + field_text("report_id"@, report_id as nat) + " }"@,
        HidReportError::ShortReport { expected, actual } => "ShortReport { "@ + field_text("expected"@, expected as nat)
            + ", "@ + field_text("actual"@, actual as nat) + " }"@,
    }
}

fn push_field(s: &mut String, name: &str, value: u128)
    ensures
        final(s)@ == old(s)@ + field_text(name@, value as nat),
{
    push_str(s, name);
    push_str(s, ": ");
    push_decimal(s, value);
    proof {
        reveal_strlit(": ");
    }
    assert(final(s)@ =~= old(s)@ + field_text(name@, value as nat));
}

fn push_braced_field(s: &mut String, variant: &str, name: &str, value: u128)
    ensures
        final(s)@ == old(s)@ + variant@ + " { "@ + field_text(name@, value as nat) + " }"@,
{
    push_str(s, variant);
    push_str(s, " { ");
    push_field(s, name, value);
    push_str(s, " }");
    assert(final(s)@ =~= old(s)@ + variant@ + " { "@ + field_text(name@, value as nat) + " }"@);
}

fn push_validation_debug(s: &mut String, e: HidValidationError)
    ensures
        final(s)@ == old(s)@ + validation_debug(e),
{
    proof {
        reveal_strlit(" { ");
        reveal_strlit(" }");
    }
    match e {
        HidValidationError::GlobalPopUnderflow { offset } => {
            push_braced_field(s, "GlobalPopUnderflow", "offset", offset as u128);
            assert(final(s)@ =~= old(s)@ + validation_debug(e)) by { reveal_strlit("GlobalPopUnderflow { "); reveal_strlit("GlobalPopUnderflow"); }
        },
        HidValidationError::UnclosedGlobalPush { depth } => {
            push_braced_field(s, "UnclosedGlobalPush", "depth", depth as u128);
            assert(final(s)@ =~= old(s)@ + validation_debug(e)) by { reveal_strlit("UnclosedGlobalPush { "); reveal_strlit("UnclosedGlobalPush"); }
        },
        HidValidationError::CollectionEndWithoutStart { offset } => {
            push_braced_field(s, "CollectionEndWithoutStart", "offset", offset as u128);
            assert(final(s)@ =~= old(s)@ + validation_debug(e)) by { reveal_strlit("CollectionEndWithoutStart { "); reveal_strlit("CollectionEndWithoutStart"); }
        },
        HidValidationError::UnclosedCollection { depth } => {
            push_braced_field(s, "UnclosedCollection", "depth", depth as u128);
            assert(final(s)@ =~= old(s)@ + validation_debug(e)) by { reveal_strlit("UnclosedCollection { "); reveal_strlit("UnclosedCollection"); }
        },
        HidValidationError::CollectionDepthExceeded { offset } => {
            push_braced_field(s, "CollectionDepthExceeded", "offset", offset as u128);
            assert(final(s)@ =~= old(s)@ + validation_debug(e)) by { reveal_strlit("CollectionDepthExceeded { "); reveal_strlit("CollectionDepthExceeded"); }
        },
        HidValidationError::ZeroReportId { offset } => {
            push_braced_field(s, "ZeroReportId", "offset", offset as u128);
            assert(final(s)@ =~= old(s)@ + validation_debug(e)) by { reveal_strlit("ZeroReportId { "); reveal_strlit("ZeroReportId"); }
        },
        HidValidationError::MissingReportSize { offset } => {
            push_braced_field(s, "MissingReportSize", "offset", offset as u128);
            assert(final(s)@ =~= old(s)@ + validation_debug(e)) by { reveal_strlit("MissingReportSize { "); reveal_strlit("MissingReportSize"); }
        },
        HidValidationError::MissingReportCount { offset } => {
            push_braced_field(s, "MissingReportCount", "offset", offset as u128);
            assert(final(s)@ =~= old(s)@ + validation_debug(e)) by { reveal_strlit("MissingReportCount { "); reveal_strlit("MissingReportCount"); }
        },
        HidValidationError::ArithmeticOverflow { offset } => {
            push_braced_field(s, "ArithmeticOverflow", "offset", offset as u128);
            assert(final(s)@ =~= old(s)@ + validation_debug(e)) by { reveal_strlit("ArithmeticOverflow { "); reveal_strlit("ArithmeticOverflow"); }
        },
    }
}

impl HidDescriptorError {
    /// The text the error displays.
    pub fn display_text(&self) -> (s: String)
        ensures
            s@ == descriptor_error_text(*self),
    {
        let mut s = String::new();
        match *self {
            HidDescriptorError::Parse(HidParseError::TruncatedShortItem { offset, expected }) => {
                push_str(&mut s, "short HID item at ");
                push_decimal(&mut s, offset as u128);
                push_str(&mut s, " needs ");
                push_decimal(&mut s, expected as u128);
                push_str(&mut s, " data bytes");
            },
            HidDescriptorError::Parse(HidParseError::TruncatedLongItem { offset, expected }) => {
                push_str(&mut s, "long HID item at ");
                push_decimal(&mut s, offset as u128);
                push_str(&mut s, " needs ");
                push_decimal(&mut s, expected as u128);
                push_str(&mut s, " data bytes");
            },
            HidDescriptorError::Validation(v) => {
                push_str(&mut s, "invalid HID descriptor: ");
                push_validation_debug(&mut s, v);
            },
        }
        assert(s@ =~= descriptor_error_text(*self));
        s
    }
}

fn push_report_type_debug(s: &mut String, t: HidReportType)
    ensures
        final(s)@ == old(s)@ + report_type_debug(t),
{
    match t {
        HidReportType::Input => push_str(s, "Input"),
        HidReportType::Output => push_str(s, "Output"),
        HidReportType::Feature => push_str(s, "Feature"),
    }
}

impl HidReportError {
    /// The text the error displays.
    pub fn display_text(&self) -> (s: String)
        ensures
            s@ == report_error_text(*self),
    {
        let mut s = String::new();
        push_str(&mut s, "invalid HID report: ");
        let ghost head = s@;
        match *self {
            HidReportError::MissingReportId => {
                push_str(&mut s, "MissingReportId");
            },
            HidReportError::UnknownReportId { report_type, report_id } => {
                push_str(&mut s, "UnknownReportId { report_type: ");
                push_report_type_debug(&mut s, report_type);
                push_str(&mut s, ", ");
                push_field(&mut s, "report_id", report_id as u128);
                push_str(&mut s, " }");
            },
            HidReportError::ShortReport { expected, actual } => {
                push_str(&mut s, "ShortReport { ");
                push_field(&mut s, "expected", expected as u128);
                push_str(&mut s, ", ");
                push_field(&mut s, "actual", actual as u128);
                push_str(&mut s, " }");
            },
        }
        assert(s@ =~= report_error_text(*self));
        s
    }
}

impl HidParseError {
    /// The text the error displays, such as `short HID item at 0 needs 1 data bytes`.
    pub fn display_text(&self) -> (s: String)
        ensures
            s@ == descriptor_error_text(HidDescriptorError::Parse(*self)),
    {
        HidDescriptorError::Parse(*self).display_text()
    }
}

impl HidValidationError {
    /// The text the error displays: `invalid HID descriptor: ` and its `Debug` form.
    pub fn display_text(&self) -> (s: String)
        ensures
            s@ == "invalid HID descriptor: "@ + validation_debug(*self),
    {
        HidDescriptorError::Validation(*self).display_text()
    }
}


/// Whether an item is a Global `Push` (tag 10).
pub open spec fn is_global_push(item: (usize, HidItemKind, Seq<u8>)) -> bool {
    item.1 == (HidItemKind::Short { item_type: HidItemType::Global, tag: 10 })
}

/// Whether an item is a Global `Pop` (tag 11).
pub open spec fn is_global_pop(item: (usize, HidItemKind, Seq<u8>)) -> bool {
    item.1 == (HidItemKind::Short { item_type: HidItemType::Global, tag: 11 })
}

/// A prefix of a walk that succeeded succeeded too.
proof fn lemma_build_upto_prefix(items: Seq<(usize, HidItemKind, Seq<u8>)>, n: int, m: int)
    requires
        0 <= m <= n,
        build_upto(items, n) is Ok,
    ensures
        build_upto(items, m) is Ok,
    decreases n - m,
{
    if m < n {
        if build_upto(items, n - 1) is Err {
            assert(build_upto(items, n) is Err);
        }
        lemma_build_upto_prefix(items, n - 1, m);
    }
}

/// Between a `Push` and the next stack item, the saved state stays on top
/// of the stack.
proof fn lemma_saved_state_kept(items: Seq<(usize, HidItemKind, Seq<u8>)>, k: int, j: int)
    requires
        0 <= k < j <= items.len(),
        is_global_push(items[k]),
        forall|i: int| k < i < j ==> !is_global_push(#[trigger] items[i]) && !is_global_pop(items[i]),
        build_upto(items, j) is Ok,
    ensures
        build_upto(items, j)->Ok_0.stack == build_upto(items, k)->Ok_0.stack.push(build_upto(items, k)->Ok_0.global),
    decreases j - k,
{
    lemma_build_upto_prefix(items, j, j - 1);
    if j - 1 > k {
        lemma_saved_state_kept(items, k, j - 1);
    } else {
        lemma_build_upto_prefix(items, j, k);
    }
}

/// A Global `Pop` restores exactly what its `Push` saved: after the `Pop`,
/// the global state (usage page, report size, report count, report ID) and
/// the saved stack are those just before the `Push`, whatever global items
/// came between. So fields declared after the pair use the sizes and counts
/// in force before it.
pub proof fn law_pop_restores_push(items: Seq<(usize, HidItemKind, Seq<u8>)>, k: int, m: int)
    requires
        0 <= k < m < items.len(),
        is_global_push(items[k]),
        is_global_pop(items[m]),
        forall|i: int| k < i < m ==> !is_global_push(#[trigger] items[i]) && !is_global_pop(items[i]),
        build_upto(items, m + 1) is Ok,
    ensures
        build_upto(items, k) is Ok,
        build_upto(items, m + 1)->Ok_0.global == build_upto(items, k)->Ok_0.global,
        build_upto(items, m + 1)->Ok_0.stack == build_upto(items, k)->Ok_0.stack,
{
    lemma_build_upto_prefix(items, m + 1, m);
    lemma_build_upto_prefix(items, m + 1, k);
    lemma_saved_state_kept(items, k, m);
    let before = build_upto(items, k)->Ok_0;
    let st = build_upto(items, m)->Ok_0;
    assert(st.stack.last() == before.global);
    assert(st.stack.drop_last() =~= before.stack);
}


/// A shared (present) connection token outranks everything else: between two
/// evdev endpoints with the HID endpoint's identity and transport, one that
/// shares its connection token scores strictly higher than one that does
/// not, whatever their topology tokens.
pub proof fn law_connection_token_outranks(left: EndpointEvidence, a: EndpointEvidence, b: EndpointEvidence)
    requires
        left.connection_token is Some,
        a.identity == left.identity && a.transport == left.transport,
        b.identity == left.identity && b.transport == left.transport,
        a.connection_token == left.connection_token,
        b.connection_token != left.connection_token,
    ensures
        evidence_score(left, a) matches Some(x) && evidence_score(left, b) matches Some(y) && x > y,
{
}

/// Whether an evdev endpoint shares the HID endpoint's identity, transport
/// and (present) connection token.
pub open spec fn shares_connection(hid: EndpointFixture, e: EndpointFixture) -> bool {
    &&& hid.evidence.connection_token is Some
    &&& e.evidence.identity == hid.evidence.identity
    &&& e.evidence.transport == hid.evidence.transport
    &&& e.evidence.connection_token == hid.evidence.connection_token
}

proof fn lemma_one_connection_match(hid: EndpointFixture, evdev: Seq<EndpointFixture>, k: int, n: int)
    requires
        0 <= k < evdev.len(),
        0 <= n <= evdev.len(),
        forall|j: int| 0 <= j < evdev.len() ==> (shares_connection(hid, #[trigger] evdev[j]) <==> j == k),
    ensures
        ({
            let top = evidence_score(hid.evidence, evdev[k].evidence)->Some_0 as int;
            let prefix = evdev.subrange(0, n);
            &&& top >= 5
            &&& n <= k ==> best_score(hid, prefix) <= 3 && best_indices(hid, prefix, top) == Seq::<usize>::empty()
            &&& n > k ==> best_score(hid, prefix) == top && best_indices(hid, prefix, top) == seq![
                evdev[k].fixture_index,
            ]
        }),
    decreases n,
{
    assert(shares_connection(hid, evdev[k]));
    if n > 0 {
        lemma_one_connection_match(hid, evdev, k, n - 1);
        let prefix = evdev.subrange(0, n);
        assert(prefix.drop_last() =~= evdev.subrange(0, n - 1));
        assert(prefix.last() == evdev[n - 1]);
        if n - 1 != k {
            assert(!shares_connection(hid, evdev[n - 1]));
        }
    }
}

/// One connection-token match pairs uniquely: when exactly one evdev
/// endpoint shares the HID endpoint's identity, transport and connection
/// token, the pairing is that endpoint alone, whatever the others offer.
pub proof fn law_single_connection_match_pairs_uniquely(hid: EndpointFixture, evdev: Seq<EndpointFixture>, k: int)
    requires
        0 <= k < evdev.len(),
        forall|j: int| 0 <= j < evdev.len() ==> (shares_connection(hid, #[trigger] evdev[j]) <==> j == k),
    ensures
        pairing_spec(hid, evdev) == (true, seq![evdev[k].fixture_index]),
{
    lemma_one_connection_match(hid, evdev, k, evdev.len() as int);
    assert(evdev.subrange(0, evdev.len() as int) =~= evdev);
    let one = seq![evdev[k].fixture_index];
    assert(one.drop_last() =~= Seq::<usize>::empty());
    assert(sort_by(one.drop_last(), index_le()) =~= Seq::<usize>::empty());
    assert(insert_by(Seq::<usize>::empty(), one.last(), index_le()) =~= one);
}

} // verus!
