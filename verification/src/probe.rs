//! Reading what a probe of a video reports.
//!
//! A probe answers with a JSON document that holds the video streams and the
//! container. The dimensions that count are those a viewer sees: a camera held
//! upright stores a landscape frame and a rotation of a quarter turn, and the
//! poster frame comes out rotated.

use crate::util;
use serde_json::Value;
use vstd::prelude::*;

verus! {

/// A JSON value of the `serde_json` crate, as it stands.
#[verifier::external_type_specification]
#[verifier::external_body]
pub struct ExValue(serde_json::Value);

/// The document that `serde_json::from_slice` reads from a text, nothing where
/// the text is not JSON.
pub uninterp spec fn parsed(bytes: Seq<u8>) -> Option<Value>;

/// The members of a JSON object, nothing for any other value.
pub uninterp spec fn members_of(value: Value) -> Option<Map<Seq<char>, Value>>;

/// The items of a JSON array, nothing for any other value.
pub uninterp spec fn items_of(value: Value) -> Option<Seq<Value>>;

/// The number a JSON value is, where it is an unsigned integer of 64 bits.
pub uninterp spec fn uint_of(value: Value) -> Option<u64>;

/// The text of a JSON string, nothing for any other value.
pub uninterp spec fn text_of(value: Value) -> Option<Seq<char>>;

/// Calls `serde_json::from_slice` for a `serde_json::Value`. What it returns is
/// determined by the text, and is named [`parsed`].
#[verifier::external_body]
pub(crate) fn parse_json(bytes: &[u8]) -> (r: Option<Value>)
    ensures
        r == parsed(bytes@),
{
    serde_json::from_slice(bytes).ok()
}

/// Calls `serde_json::Value::get` with a text. It looks the key up in an object,
/// and finds nothing in any other value.
#[verifier::external_body]
pub(crate) fn member<'a>(value: &'a Value, key: &str) -> (r: Option<&'a Value>)
    ensures
        r is Some == (members_of(*value) is Some && members_of(*value)->0.contains_key(key@)),
        r is Some ==> *r->0 == members_of(*value)->0[key@],
{
    value.get(key)
}

/// Calls `serde_json::Value::as_array`. It gives the items of an array, and
/// nothing for any other value.
#[verifier::external_body]
pub(crate) fn items(value: &Value) -> (r: Option<&Vec<Value>>)
    ensures
        r is Some == items_of(*value) is Some,
        r is Some ==> r->0@ == items_of(*value)->0,
{
    value.as_array()
}

/// Calls `serde_json::Value::as_u64`. It gives the number a value is, where it is
/// an unsigned integer of 64 bits.
#[verifier::external_body]
pub(crate) fn uint(value: &Value) -> (r: Option<u64>)
    ensures
        r == uint_of(*value),
{
    value.as_u64()
}

/// Calls `serde_json::Value::as_str`. It gives the text of a string, and nothing
/// for any other value.
#[verifier::external_body]
pub(crate) fn string(value: &Value) -> (r: Option<&str>)
    ensures
        r is Some == text_of(*value) is Some,
        r is Some ==> r->0@ == text_of(*value)->0,
{
    value.as_str()
}

/// The member of a JSON object.
pub open spec fn member_of(value: Value, key: Seq<char>) -> Option<Value> {
    match members_of(value) {
        Some(members) => if members.contains_key(key) {
            Some(members[key])
        } else {
            None
        },
        None => None,
    }
}

/// What a rotation comes to: whether it is a quarter turn, nothing where the
/// value is not a number of degrees.
pub type Turn = spec_fn(Value) -> Option<bool>;

/// Whether every answer `quarter` can give is what `turn` says.
pub open spec fn judges<Q: Fn(&Value) -> Option<bool>>(quarter: Q, turn: Turn) -> bool {
    forall|value: &Value, answer: Option<bool>| #[trigger]
        call_ensures(quarter, (value,), answer) ==> answer == turn(*value)
}

/// What the member `rotation` of a value comes to.
pub open spec fn rotation_in(value: Value, turn: Turn) -> Option<bool> {
    match member_of(value, "rotation"@) {
        Some(rotation) => turn(rotation),
        None => None,
    }
}

/// What the first rotation among the side data comes to.
pub open spec fn first_rotation(side_data: Seq<Value>, turn: Turn) -> Option<bool>
    decreases side_data.len(),
{
    if side_data.len() == 0 {
        None
    } else {
        match rotation_in(side_data.first(), turn) {
            Some(quarter) => Some(quarter),
            None => first_rotation(side_data.drop_first(), turn),
        }
    }
}

/// What the rotation in the side data of a stream comes to.
pub open spec fn side_rotation(stream: Value, turn: Turn) -> Option<bool> {
    match member_of(stream, "side_data_list"@) {
        Some(list) => match items_of(list) {
            Some(side_data) => first_rotation(side_data, turn),
            None => None,
        },
        None => None,
    }
}

/// What the `rotate` tag of a stream comes to.
pub open spec fn tag_rotation(stream: Value, turn: Turn) -> Option<bool> {
    match member_of(stream, "tags"@) {
        Some(tags) => match member_of(tags, "rotate"@) {
            Some(rotate) => turn(rotate),
            None => None,
        },
        None => None,
    }
}

/// Whether a stream is shown after a quarter turn. The side data counts first,
/// the tag of older files where there is none.
pub open spec fn turned(stream: Value, turn: Turn) -> bool {
    decided(side_rotation(stream, turn), tag_rotation(stream, turn))
}

/// Whether there is a quarter turn, given what the side data and the tag come
/// to.
pub open spec fn decided(side: Option<bool>, tag: Option<bool>) -> bool {
    match side {
        Some(quarter) => quarter,
        None => match tag {
            Some(quarter) => quarter,
            None => false,
        },
    }
}

/// The unsigned integer stored under `key`.
pub open spec fn side_of(stream: Value, key: Seq<char>) -> Option<u64> {
    match member_of(stream, key) {
        Some(value) => uint_of(value),
        None => None,
    }
}

/// A number in 32 bits: what is above them is dropped.
pub open spec fn low_bits(n: u64) -> u32 {
    (n % 0x1_0000_0000) as u32
}

/// The dimensions a viewer sees of a frame with these sides, after a quarter
/// turn or none.
pub open spec fn frame_size(width: Option<u64>, height: Option<u64>, quarter: bool) -> Option<
    (u32, u32),
> {
    if width is None || height is None {
        None
    } else if quarter {
        Some((low_bits(height->0), low_bits(width->0)))
    } else {
        Some((low_bits(width->0), low_bits(height->0)))
    }
}

/// The dimensions a viewer sees.
pub open spec fn shown_size(stream: Value, turn: Turn) -> Option<(u32, u32)> {
    frame_size(side_of(stream, "width"@), side_of(stream, "height"@), turned(stream, turn))
}

/// What a probe reports. The duration is the text the container gives.
pub struct Probe {
    pub width: u32,
    pub height: u32,
    pub duration: Option<String>,
}

/// The first video stream of a document.
pub open spec fn first_stream(document: Value) -> Option<Value> {
    match member_of(document, "streams"@) {
        Some(streams) => match items_of(streams) {
            Some(list) => if list.len() > 0 {
                Some(list[0])
            } else {
                None
            },
            None => None,
        },
        None => None,
    }
}

/// The text of the duration of the container.
pub open spec fn duration_text(document: Value) -> Option<Seq<char>> {
    match member_of(document, "format"@) {
        Some(format) => match member_of(format, "duration"@) {
            Some(duration) => text_of(duration),
            None => None,
        },
        None => None,
    }
}

fn side(stream: &Value, key: &str) -> (r: Option<u64>)
    ensures
        r == side_of(*stream, key@),
{
    match member(stream, key) {
        Some(value) => uint(value),
        None => None,
    }
}

/// The dimensions a viewer sees of a frame with these sides, after a quarter
/// turn or none.
pub fn frame_dimensions(width: Option<u64>, height: Option<u64>, quarter: bool) -> (r: Option<
    (u32, u32),
>)
    ensures
        r == frame_size(width, height, quarter),
{
    match (width, height) {
        (Some(width), Some(height)) => {
            let w: u32 = (width % 0x1_0000_0000) as u32;
            let h: u32 = (height % 0x1_0000_0000) as u32;
            if quarter {
                Some((h, w))
            } else {
                Some((w, h))
            }
        },
        _ => None,
    }
}

/// Whether there is a quarter turn, given what the side data and the tag come
/// to.
pub fn decide_turn(side: Option<bool>, tag: Option<bool>) -> (r: bool)
    ensures
        r == decided(side, tag),
{
    match side {
        Some(quarter) => quarter,
        None => match tag {
            Some(quarter) => quarter,
            None => false,
        },
    }
}

/// Whether a stream carries a display rotation of a quarter turn. `quarter`
/// judges a rotation: whether it is a quarter turn, nothing where it is not a
/// number of degrees.
pub fn is_quarter_turn<Q: Fn(&Value) -> Option<bool>>(stream: &Value, quarter: &Q) -> (r: bool)
    requires
        forall|value: &Value| #[trigger] call_requires(*quarter, (value,)),
    ensures
        forall|turn: Turn| #[trigger] judges(*quarter, turn) ==> r == turned(*stream, turn),
{
    let side = match member(stream, "side_data_list") {
        Some(list) => match items(list) {
            Some(side_data) => find_rotation(side_data, quarter),
            None => None,
        },
        None => None,
    };
    let tag = match member(stream, "tags") {
        Some(tags) => match member(tags, "rotate") {
            Some(rotate) => quarter(rotate),
            None => None,
        },
        None => None,
    };
    decide_turn(side, tag)
}

fn find_rotation<Q: Fn(&Value) -> Option<bool>>(side_data: &Vec<Value>, quarter: &Q) -> (r: Option<
    bool,
>)
    requires
        forall|value: &Value| #[trigger] call_requires(*quarter, (value,)),
    ensures
        forall|turn: Turn| #[trigger]
            judges(*quarter, turn) ==> r == first_rotation(side_data@, turn),
{
    let mut i: usize = 0;
    proof {
        assert(side_data@.skip(0) =~= side_data@);
    }
    while i < side_data.len()
        invariant
            i <= side_data@.len(),
            forall|value: &Value| #[trigger] call_requires(*quarter, (value,)),
            forall|turn: Turn| #[trigger]
                judges(*quarter, turn) ==> first_rotation(side_data@, turn) == first_rotation(
                    side_data@.skip(i as int),
                    turn,
                ),
        decreases side_data.len() - i,
    {
        proof {
            assert(side_data@.skip(i as int).first() == side_data@[i as int]);
            assert(side_data@.skip(i as int).drop_first() =~= side_data@.skip(i + 1));
        }
        if let Some(rotation) = member(&side_data[i], "rotation") {
            if let Some(is_quarter) = quarter(rotation) {
                return Some(is_quarter);
            }
        }
        i = i + 1;
    }
    None
}

/// The dimensions a viewer sees for one stream: the coded size, with width and
/// height swapped when the display rotation is a quarter turn.
pub fn display_dimensions<Q: Fn(&Value) -> Option<bool>>(stream: &Value, quarter: &Q) -> (r: Option<
    (u32, u32),
>)
    requires
        forall|value: &Value| #[trigger] call_requires(*quarter, (value,)),
    ensures
        forall|turn: Turn| #[trigger] judges(*quarter, turn) ==> r == shown_size(*stream, turn),
        r is Some == (side_of(*stream, "width"@) is Some && side_of(*stream, "height"@) is Some),
{
    let turn = is_quarter_turn(stream, quarter);
    frame_dimensions(side(stream, "width"), side(stream, "height"), turn)
}

/// Reads what a probe printed. A missing duration is no failure, because the
/// dimensions alone are still useful.
pub fn probe_video<Q: Fn(&Value) -> Option<bool>>(output: &[u8], quarter: &Q) -> (r: Option<Probe>)
    requires
        forall|value: &Value| #[trigger] call_requires(*quarter, (value,)),
    ensures
        match parsed(output@) {
            None => r is None,
            Some(document) => probe_reports(document, *quarter, r),
        },
{
    match parse_json(output) {
        Some(document) => read_probe(&document, quarter),
        None => None,
    }
}

/// What reading a probe document comes to.
pub open spec fn probe_reports<Q: Fn(&Value) -> Option<bool>>(
    document: Value,
    quarter: Q,
    r: Option<Probe>,
) -> bool {
    match first_stream(document) {
        None => r is None,
        Some(stream) => {
            &&& r is Some == (side_of(stream, "width"@) is Some && side_of(stream, "height"@)
                is Some)
            &&& r is Some ==> util::opt_view(r->0.duration) == duration_text(document)
            &&& r is Some ==> forall|turn: Turn| #[trigger]
                judges(quarter, turn) ==> shown_size(stream, turn) == Some(
                    (r->0.width, r->0.height),
                )
        },
    }
}

/// Reads the document a probe printed.
pub fn read_probe<Q: Fn(&Value) -> Option<bool>>(document: &Value, quarter: &Q) -> (r: Option<
    Probe,
>)
    requires
        forall|value: &Value| #[trigger] call_requires(*quarter, (value,)),
    ensures
        probe_reports(*document, *quarter, r),
{
    let streams = match member(document, "streams") {
        Some(streams) => streams,
        None => return None,
    };
    let list = match items(streams) {
        Some(list) => list,
        None => return None,
    };
    if list.len() == 0 {
        return None;
    }
    let (width, height) = match display_dimensions(&list[0], quarter) {
        Some(size) => size,
        None => return None,
    };
    let duration = match member(document, "format") {
        Some(format) => match member(format, "duration") {
            Some(duration) => match string(duration) {
                Some(text) => Some(text.to_owned()),
                None => None,
            },
            None => None,
        },
        None => None,
    };
    Some(Probe { width, height, duration })
}

/// A quarter turn swaps the dimensions, and no other rotation changes them.
pub proof fn law_only_a_quarter_turn_swaps(stream: Value, turn: Turn)
    requires
        side_of(stream, "width"@) is Some,
        side_of(stream, "height"@) is Some,
    ensures
        turned(stream, turn) ==> shown_size(stream, turn) == Some(
            (low_bits(side_of(stream, "height"@)->0), low_bits(side_of(stream, "width"@)->0)),
        ),
        !turned(stream, turn) ==> shown_size(stream, turn) == Some(
            (low_bits(side_of(stream, "width"@)->0), low_bits(side_of(stream, "height"@)->0)),
        ),
{
}

/// The first rotation that is a number of degrees counts, wherever it stands among
/// the side data, and without one there is none.
pub proof fn law_the_first_rotation_counts(side_data: Seq<Value>, turn: Turn, k: int)
    requires
        0 <= k <= side_data.len(),
        forall|i: int| 0 <= i < k ==> rotation_in(#[trigger] side_data[i], turn) is None,
    ensures
        k == side_data.len() ==> first_rotation(side_data, turn) is None,
        k < side_data.len() && rotation_in(side_data[k], turn) is Some ==> first_rotation(
            side_data,
            turn,
        ) == rotation_in(side_data[k], turn),
    decreases k,
{
    if k > 0 {
        let rest = side_data.drop_first();
        assert(rotation_in(side_data[0], turn) is None);
        assert forall|i: int| 0 <= i < k - 1 implies rotation_in(#[trigger] rest[i], turn)
            is None by {
            assert(rest[i] == side_data[i + 1]);
        }
        law_the_first_rotation_counts(rest, turn, k - 1);
        if k < side_data.len() {
            assert(rest[k - 1] == side_data[k]);
        }
    }
}

/// The rotation in the side data goes before that in the tags, even where it says
/// that there is no quarter turn; without either there is none.
pub proof fn law_side_data_goes_before_tags(stream: Value, turn: Turn)
    ensures
        side_rotation(stream, turn) is Some ==> turned(stream, turn) == side_rotation(
            stream,
            turn,
        )->0,
        side_rotation(stream, turn) is None && tag_rotation(stream, turn) is Some ==> turned(
            stream,
            turn,
        ) == tag_rotation(stream, turn)->0,
        side_rotation(stream, turn) is None && tag_rotation(stream, turn) is None ==> !turned(
            stream,
            turn,
        ),
{
}

/// Where the numbers of a probe stand in its document: the sides and the rotations in
/// the first stream, the duration in the format.
pub proof fn law_where_a_probe_looks(
    document: Value,
    streams: Value,
    stream: Value,
    rest: Seq<Value>,
    format: Value,
    duration: Value,
    width: Value,
    height: Value,
    list: Value,
    tags: Value,
    turn: Turn,
)
    requires
        members_of(document) is Some,
        members_of(format) is Some,
        members_of(stream) is Some,
    ensures
        ({
            let top = members_of(document)->0;
            let of_format = members_of(format)->0;
            let of_stream = members_of(stream)->0;
            &&& top.contains_key("streams"@) && top["streams"@] == streams && items_of(streams)
                == Some(seq![stream] + rest) ==> first_stream(document) == Some(stream)
            &&& !top.contains_key("streams"@) ==> first_stream(document) is None
            &&& top.contains_key("format"@) && top["format"@] == format && of_format.contains_key(
                "duration"@,
            ) && of_format["duration"@] == duration ==> duration_text(document) == text_of(duration)
            &&& of_stream.contains_key("width"@) && of_stream["width"@] == width ==> side_of(
                stream,
                "width"@,
            ) == uint_of(width)
            &&& of_stream.contains_key("height"@) && of_stream["height"@] == height ==> side_of(
                stream,
                "height"@,
            ) == uint_of(height)
            &&& of_stream.contains_key("side_data_list"@) && of_stream["side_data_list"@] == list
                && items_of(list) is Some ==> side_rotation(stream, turn) == first_rotation(
                items_of(list)->0,
                turn,
            )
            &&& of_stream.contains_key("tags"@) && of_stream["tags"@] == tags && members_of(tags)
                is Some && members_of(tags)->0.contains_key("rotate"@) ==> tag_rotation(stream, turn)
                == turn(members_of(tags)->0["rotate"@])
        }),
{
    assert((seq![stream] + rest)[0] == stream);
}

/// The dimensions of a frame are its sides, exchanged by a quarter turn; both are
/// needed, and a side that fits into 32 bits is kept as it is.
pub proof fn law_the_dimensions_of_a_frame(width: u64, height: u64, quarter: bool)
    requires
        width < 0x1_0000_0000,
        height < 0x1_0000_0000,
    ensures
        frame_size(Some(width), Some(height), false) == Some((width as u32, height as u32)),
        frame_size(Some(width), Some(height), true) == Some((height as u32, width as u32)),
        frame_size(None, Some(height), quarter) is None,
        frame_size(Some(width), None, quarter) is None,
{
}

/// What a probe reports: the sides of the first stream, turned as it is shown, and
/// the duration as the container gives it. There is a report exactly where that
/// stream gives both sides, with or without a duration.
pub proof fn law_what_a_probe_reports<Q: Fn(&Value) -> Option<bool>>(
    document: Value,
    quarter: Q,
    turn: Turn,
    r: Option<Probe>,
)
    requires
        probe_reports(document, quarter, r),
        judges(quarter, turn),
    ensures
        r is Some <==> first_stream(document) is Some && side_of(first_stream(document)->0, "width"@)
            is Some && side_of(first_stream(document)->0, "height"@) is Some,
        r matches Some(report) ==> {
            let stream = first_stream(document)->0;
            let width = low_bits(side_of(stream, "width"@)->0);
            let height = low_bits(side_of(stream, "height"@)->0);
            &&& util::opt_view(report.duration) == duration_text(document)
            &&& turned(stream, turn) ==> report.width == height && report.height == width
            &&& !turned(stream, turn) ==> report.width == width && report.height == height
        },
{
}

} // verus!
