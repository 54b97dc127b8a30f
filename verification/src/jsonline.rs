//! The line of a message as a JSON value.

use crate::json::{Content, Scalar};
use crate::jsonvalue::Json;
use crate::message::MessageView;
use crate::msgs::codec::Codec;
use crate::msgs::types::{
    CloudView, Imu, ImuView, PointCloud, PoseStamped, PoseView, RoleView, SceneMeta, SceneView,
};
use crate::{json, jsonvalue, text};
use vstd::prelude::*;

verus! {

/// Numbers that are written out in `texts`.
pub open spec fn numbers(texts: Seq<Seq<char>>) -> Json {
    Json::List(texts.map_values(|s: Seq<char>| Json::Number(s)))
}

/// The first `n` points, whose coordinates are written out in `texts` from the second text on.
pub open spec fn points(texts: Seq<Seq<char>>, n: nat) -> Seq<Json> {
    Seq::new(
        n,
        |i: int| numbers(seq![texts[3 * i + 1], texts[3 * i + 2], texts[3 * i + 3]]),
    )
}

/// A channel of a scene.
pub open spec fn role_value(r: RoleView) -> Json {
    Json::Object(
        seq!["name"@, "role"@, "frame_id"@],
        seq![Json::Text(r.name), Json::Text(r.role), Json::Text(r.frame_id)],
    )
}

pub open spec fn role_values(roles: Seq<RoleView>) -> Seq<Json> {
    roles.map_values(|r: RoleView| role_value(r))
}

/// A whole number.
pub open spec fn whole(n: u32) -> Json {
    Json::Number(text::decimal(n as nat))
}

/// The names of the members that speak of the payload of a message, and their values.
pub open spec fn content_members(
    content: Content,
    payload: Seq<u8>,
    texts: Seq<Seq<char>>,
) -> (Seq<Seq<char>>, Seq<Json>) {
    match content {
        Content::Cloud(c) => (
            seq!["frame_id"@, "height"@, "width"@, "point_step"@, "row_step"@, "points"@],
            seq![
                Json::Text(c.header.frame_id),
                whole(c.height),
                whole(c.width),
                whole(c.point_step),
                whole(c.row_step),
                Json::List(points(texts, json::point_count(c))),
            ],
        ),
        Content::Imu(i) => (
            seq!["frame_id"@, "lin_acc"@, "ang_vel"@],
            seq![
                Json::Text(i.header.frame_id),
                numbers(seq![texts[1], texts[2], texts[3]]),
                numbers(seq![texts[4], texts[5], texts[6]]),
            ],
        ),
        Content::Pose(p) => (
            seq!["frame_id"@, "position"@, "orientation"@],
            seq![
                Json::Text(p.header.frame_id),
                numbers(seq![texts[1], texts[2], texts[3]]),
                numbers(seq![texts[4], texts[5], texts[6], texts[7]]),
            ],
        ),
        Content::Scene(v) => (
            seq!["world_frame"@, "channels"@],
            seq![Json::Text(v.world_frame), Json::List(role_values(v.channels))],
        ),
        Content::Bytes => (seq!["payload_hex"@], seq![Json::Text(text::hex_text(payload))]),
    }
}

/// An object with a channel, a time, a type, and what speaks of a payload.
pub open spec fn object_of(
    channel: Seq<char>,
    typename: Seq<char>,
    content: Content,
    payload: Seq<u8>,
    texts: Seq<Seq<char>>,
) -> Json {
    let (names, values) = content_members(content, payload, texts);
    Json::Object(
        seq!["channel"@, "stamp"@, "type"@] + names,
        seq![Json::Text(channel), Json::Number(texts[0]), Json::Text(typename)] + values,
    )
}

/// The object that the line of a message is.
pub open spec fn document(m: MessageView, texts: Seq<Seq<char>>) -> Json {
    object_of(m.channel, m.schema.typename, json::content_of(m), m.payload, texts)
}

/// The inside of an object.
spec fn inside(names: Seq<Seq<char>>, values: Seq<Json>) -> Seq<char> {
    jsonvalue::joined(
        jsonvalue::members_written(names, values, values.len() as int),
        values.len() as int,
    )
}

/// Whether nothing of `s` is escaped between quotation marks.
spec fn plain(s: Seq<char>) -> bool {
    forall|i: int| 0 <= i < s.len() ==> (#[trigger] s[i]) as u32 >= 0x20 && s[i] != '"' && s[i]
        != '\\'
}

proof fn lemma_plain(s: Seq<char>)
    requires
        plain(s),
    ensures
        json::escaped(s) == s,
    decreases s.len(),
{
    if s.len() > 0 {
        lemma_plain(s.drop_last());
        assert(s.last() == s[s.len() - 1]);
        assert(json::escaped(s) =~= s);
    } else {
        assert(json::escaped(s) =~= s);
    }
}

/// The text `lit` is `before`, then a plain name in quotation marks and a colon.
proof fn lemma_name(lit: Seq<char>, before: Seq<char>, name: Seq<char>)
    requires
        plain(name),
        lit =~= before + seq!['"'] + name + seq!['"', ':'],
    ensures
        lit == before + (json::quoted(name) + seq![':']),
{
    lemma_plain(name);
    assert(lit =~= before + (json::quoted(name) + seq![':']));
}

proof fn lemma_joined_prefix(a: Seq<Seq<char>>, b: Seq<Seq<char>>, n: int)
    requires
        n <= a.len(),
        n <= b.len(),
        forall|i: int| 0 <= i < n ==> a[i] == b[i],
    ensures
        jsonvalue::joined(a, n) == jsonvalue::joined(b, n),
    decreases n,
{
    if n > 1 {
        lemma_joined_prefix(a, b, n - 1);
    }
}

proof fn lemma_members_prefix(
    names: Seq<Seq<char>>,
    values: Seq<Json>,
    more: Seq<Seq<char>>,
    others: Seq<Json>,
    n: int,
)
    requires
        names.len() == values.len(),
        0 <= n <= values.len(),
    ensures
        jsonvalue::members_written(names + more, values + others, n)
            == jsonvalue::members_written(names, values, n),
    decreases n,
{
    if n > 0 {
        lemma_members_prefix(names, values, more, others, n - 1);
    }
}

/// The inside of an object with one more member.
proof fn lemma_one_more(
    names: Seq<Seq<char>>,
    values: Seq<Json>,
    lit: Seq<char>,
    name: Seq<char>,
    value: Json,
)
    requires
        names.len() == values.len(),
        lit == (if values.len() == 0 {
            Seq::empty()
        } else {
            seq![',']
        }) + (json::quoted(name) + seq![':']),
    ensures
        inside(names.push(name), values.push(value)) == inside(names, values) + lit
            + jsonvalue::written(value),
{
    let n = values.len() as int;
    let before = jsonvalue::members_written(names, values, n);
    let all = jsonvalue::members_written(names.push(name), values.push(value), n + 1);
    lemma_members_prefix(names, values, seq![name], seq![value], n);
    assert(names + seq![name] =~= names.push(name));
    assert(values + seq![value] =~= values.push(value));
    assert(all == before.push(jsonvalue::member(name, jsonvalue::written(value))));
    jsonvalue::lemma_members_written(names, values, n);
    lemma_joined_prefix(all, before, n);
    assert(inside(names.push(name), values.push(value)) =~= inside(names, values) + lit
        + jsonvalue::written(value));
}

/// The inside of an object with one member.
proof fn lemma_one(lit: Seq<char>, name: Seq<char>, value: Json)
    requires
        lit == json::quoted(name) + seq![':'],
    ensures
        inside(Seq::empty().push(name), Seq::empty().push(value)) == lit
            + jsonvalue::written(value),
{
    assert(Seq::empty() + lit =~= lit);
    lemma_one_more(Seq::empty(), Seq::empty(), lit, name, value);
    assert(inside(Seq::empty(), Seq::empty()) + lit =~= lit);
}

/// The insides of two objects, one behind the other.
proof fn lemma_inside_both(
    names: Seq<Seq<char>>,
    values: Seq<Json>,
    more: Seq<Seq<char>>,
    others: Seq<Json>,
)
    requires
        names.len() == values.len(),
        more.len() == others.len(),
        values.len() > 0,
        others.len() > 0,
    ensures
        inside(names + more, values + others) == inside(names, values) + seq![','] + inside(
            more,
            others,
        ),
    decreases others.len(),
{
    let front = others.drop_last();
    let last = others.last();
    let name = more.last();
    let named = json::quoted(name) + seq![':'];
    assert(more.drop_last().push(name) =~= more);
    assert(front.push(last) =~= others);
    assert((names + more.drop_last()).push(name) =~= names + more);
    assert((values + front).push(last) =~= values + others);
    lemma_one_more(names + more.drop_last(), values + front, seq![','] + named, name, last);
    if front.len() == 0 {
        assert(names + more.drop_last() =~= names);
        assert(values + front =~= values);
        lemma_one_more(more.drop_last(), front, Seq::empty() + named, name, last);
        assert(inside(more.drop_last(), front) =~= Seq::empty());
    } else {
        lemma_inside_both(names, values, more.drop_last(), front);
        lemma_one_more(more.drop_last(), front, seq![','] + named, name, last);
    }
    assert(inside(names + more, values + others) =~= inside(names, values) + seq![',']
        + inside(more, others));
}

proof fn lemma_three_numbers(a: Seq<char>, b: Seq<char>, c: Seq<char>)
    ensures
        jsonvalue::written(numbers(seq![a, b, c])) == json::triple(a, b, c),
{
    reveal_strlit("[");
    reveal_strlit(",");
    reveal_strlit("]");
    let items = seq![Json::Number(a), Json::Number(b), Json::Number(c)];
    assert(numbers(seq![a, b, c])->List_0 =~= items);
    let parts = jsonvalue::items_written(items, 3);
    jsonvalue::lemma_items_written(items, 3);
    assert(jsonvalue::joined(parts, 1) == a);
    assert(jsonvalue::joined(parts, 2) == a + seq![','] + b);
    assert(jsonvalue::joined(parts, 3) == a + seq![','] + b + seq![','] + c);
    assert(jsonvalue::written(numbers(seq![a, b, c])) =~= json::triple(a, b, c));
}

proof fn lemma_four_numbers(a: Seq<char>, b: Seq<char>, c: Seq<char>, e: Seq<char>)
    ensures
        jsonvalue::written(numbers(seq![a, b, c, e])) == seq!['['] + a + seq![','] + b
            + seq![','] + c + seq![','] + e + seq![']'],
{
    let items = seq![Json::Number(a), Json::Number(b), Json::Number(c), Json::Number(e)];
    assert(numbers(seq![a, b, c, e])->List_0 =~= items);
    let parts = jsonvalue::items_written(items, 4);
    jsonvalue::lemma_items_written(items, 4);
    assert(jsonvalue::joined(parts, 1) == a);
    assert(jsonvalue::joined(parts, 2) == a + seq![','] + b);
    assert(jsonvalue::joined(parts, 3) == a + seq![','] + b + seq![','] + c);
    assert(jsonvalue::joined(parts, 4) == a + seq![','] + b + seq![','] + c + seq![','] + e);
    assert(jsonvalue::written(numbers(seq![a, b, c, e])) =~= seq!['['] + a + seq![','] + b
        + seq![','] + c + seq![','] + e + seq![']']);
}

proof fn lemma_points(texts: Seq<Seq<char>>, total: nat, n: nat)
    requires
        n <= total,
    ensures
        jsonvalue::joined(
            jsonvalue::items_written(points(texts, total), total as int),
            n as int,
        ) == json::points_text(texts, n),
    decreases n,
{
    if n > 0 {
        let k = 3 * (n - 1);
        jsonvalue::lemma_items_written(points(texts, total), total as int);
        lemma_three_numbers(texts[k + 1], texts[k + 2], texts[k + 3]);
        lemma_points(texts, total, (n - 1) as nat);
        reveal_strlit(",");
        assert(","@ =~= seq![',']);
    }
}

/// A brace belongs to what follows as well as to the whole.
proof fn lemma_braces(
    a: Seq<char>,
    b: Seq<char>,
    c: Seq<char>,
    e: Seq<char>,
    f: Seq<char>,
    g: Seq<char>,
)
    ensures
        (seq!['{'] + a) + b + c + e + f + g + seq!['}'] == seq!['{'] + (a + b + c + e + f + g)
            + seq!['}'],
{
    assert((seq!['{'] + a) + b + c + e + f + g + seq!['}'] =~= seq!['{'] + (a + b + c + e + f + g)
        + seq!['}']);
}

proof fn lemma_braces_and_rest(
    a: Seq<char>,
    b: Seq<char>,
    c: Seq<char>,
    e: Seq<char>,
    f: Seq<char>,
    g: Seq<char>,
    rest: Seq<char>,
)
    ensures
        (seq!['{'] + a) + b + c + e + f + g + seq![','] + rest + seq!['}'] == seq!['{'] + (a + b + c
            + e + f + g + seq![','] + rest) + seq!['}'],
{
    assert((seq!['{'] + a) + b + c + e + f + g + seq![','] + rest + seq!['}'] =~= seq!['{'] + (a + b
        + c + e + f + g + seq![','] + rest) + seq!['}']);
}

proof fn lemma_role(r: RoleView)
    ensures
        jsonvalue::written(role_value(r)) == json::role_text(r),
{
    let n0 = "name"@;
    let n1 = "role"@;
    let n2 = "frame_id"@;
    let v0 = Json::Text(r.name);
    let v1 = Json::Text(r.role);
    let v2 = Json::Text(r.frame_id);
    let first = json::quoted(n0) + seq![':'];
    assert("{\"name\":"@ == seq!['{'] + (json::quoted(n0) + seq![':'])) by {
        reveal_strlit("{\"name\":");
        reveal_strlit("name");
        lemma_name("{\"name\":"@, seq!['{'], n0);
    }
    assert(",\"role\":"@ == seq![','] + (json::quoted(n1) + seq![':'])) by {
        reveal_strlit(",\"role\":");
        reveal_strlit("role");
        lemma_name(",\"role\":"@, seq![','], n1);
    }
    assert(",\"frame_id\":"@ == seq![','] + (json::quoted(n2) + seq![':'])) by {
        reveal_strlit(",\"frame_id\":");
        reveal_strlit("frame_id");
        lemma_name(",\"frame_id\":"@, seq![','], n2);
    }
    assert("}"@ =~= seq!['}']) by {
        reveal_strlit("}");
    }
    let names = Seq::<Seq<char>>::empty();
    let values = Seq::<Json>::empty();
    lemma_one(first, n0, v0);
    lemma_one_more(names.push(n0), values.push(v0), ",\"role\":"@, n1, v1);
    lemma_one_more(names.push(n0).push(n1), values.push(v0).push(v1), ",\"frame_id\":"@, n2, v2);
    lemma_braces(
        first,
        json::quoted(r.name),
        ",\"role\":"@,
        json::quoted(r.role),
        ",\"frame_id\":"@,
        json::quoted(r.frame_id),
    );
    assert(names.push(n0).push(n1).push(n2) =~= seq![n0, n1, n2]);
    assert(values.push(v0).push(v1).push(v2) =~= seq![v0, v1, v2]);
}

proof fn lemma_roles(roles: Seq<RoleView>, n: nat)
    requires
        n <= roles.len(),
    ensures
        jsonvalue::joined(
            jsonvalue::items_written(role_values(roles), roles.len() as int),
            n as int,
        ) == json::roles_text(roles, n),
    decreases n,
{
    if n > 0 {
        jsonvalue::lemma_items_written(role_values(roles), roles.len() as int);
        lemma_role(roles[n - 1]);
        lemma_roles(roles, (n - 1) as nat);
        reveal_strlit(",");
        assert(","@ =~= seq![',']);
    }
}

/// The list of the points of a cloud as it is written.
proof fn lemma_points_list(texts: Seq<Seq<char>>, n: nat)
    ensures
        jsonvalue::written(Json::List(points(texts, n))) == seq!['['] + json::points_text(texts, n)
            + seq![']'],
{
    lemma_points(texts, n, n);
}

proof fn lemma_cloud(c: CloudView, texts: Seq<Seq<char>>)
    ensures
        ({
            let names =
                seq!["frame_id"@, "height"@, "width"@, "point_step"@, "row_step"@, "points"@];
            let values = seq![
                Json::Text(c.header.frame_id),
                whole(c.height),
                whole(c.width),
                whole(c.point_step),
                whole(c.row_step),
                Json::List(points(texts, json::point_count(c))),
            ];
            inside(names, values) == json::cloud_text(c, texts)
        }),
{
    let n0 = "frame_id"@;
    let n1 = "height"@;
    let n2 = "width"@;
    let n3 = "point_step"@;
    let n4 = "row_step"@;
    let n5 = "points"@;
    let list = json::points_text(texts, json::point_count(c));
    let v0 = Json::Text(c.header.frame_id);
    let v5 = Json::List(points(texts, json::point_count(c)));
    let open = seq![','] + (json::quoted(n5) + seq![':']);
    assert("\"frame_id\":"@ == json::quoted(n0) + seq![':']) by {
        reveal_strlit("\"frame_id\":");
        reveal_strlit("frame_id");
        lemma_name("\"frame_id\":"@, Seq::empty(), n0);
    }
    assert(",\"height\":"@ == seq![','] + (json::quoted(n1) + seq![':'])) by {
        reveal_strlit(",\"height\":");
        reveal_strlit("height");
        lemma_name(",\"height\":"@, seq![','], n1);
    }
    assert(",\"width\":"@ == seq![','] + (json::quoted(n2) + seq![':'])) by {
        reveal_strlit(",\"width\":");
        reveal_strlit("width");
        lemma_name(",\"width\":"@, seq![','], n2);
    }
    assert(",\"point_step\":"@ == seq![','] + (json::quoted(n3) + seq![':'])) by {
        reveal_strlit(",\"point_step\":");
        reveal_strlit("point_step");
        lemma_name(",\"point_step\":"@, seq![','], n3);
    }
    assert(",\"row_step\":"@ == seq![','] + (json::quoted(n4) + seq![':'])) by {
        reveal_strlit(",\"row_step\":");
        reveal_strlit("row_step");
        lemma_name(",\"row_step\":"@, seq![','], n4);
    }
    assert(",\"points\":["@ =~= open + seq!['[']) by {
        reveal_strlit(",\"points\":[");
        reveal_strlit("points");
        lemma_plain(n5);
    }
    assert("]"@ =~= seq![']']) by {
        reveal_strlit("]");
    }
    lemma_points_list(texts, json::point_count(c));
    let names = Seq::<Seq<char>>::empty();
    let values = Seq::<Json>::empty();
    lemma_one("\"frame_id\":"@, n0, v0);
    let names = names.push(n0);
    let values = values.push(v0);
    lemma_one_more(names, values, ",\"height\":"@, n1, whole(c.height));
    let names = names.push(n1);
    let values = values.push(whole(c.height));
    lemma_one_more(names, values, ",\"width\":"@, n2, whole(c.width));
    let names = names.push(n2);
    let values = values.push(whole(c.width));
    lemma_one_more(names, values, ",\"point_step\":"@, n3, whole(c.point_step));
    let names = names.push(n3);
    let values = values.push(whole(c.point_step));
    lemma_one_more(names, values, ",\"row_step\":"@, n4, whole(c.row_step));
    let names = names.push(n4);
    let values = values.push(whole(c.row_step));
    lemma_one_more(names, values, open, n5, v5);
    lemma_reopened(inside(names, values), open, list);
    assert(names.push(n5) =~= seq![n0, n1, n2, n3, n4, n5]);
    assert(values.push(v5) =~= seq![
        v0,
        whole(c.height),
        whole(c.width),
        whole(c.point_step),
        whole(c.row_step),
        v5,
    ]);
}

/// A bracket belongs to what follows as well as to what is in front of it.
proof fn lemma_reopened(front: Seq<char>, open: Seq<char>, list: Seq<char>)
    ensures
        front + open + (seq!['['] + list + seq![']']) == front + (open + seq!['[']) + list
            + seq![']'],
{
    assert(front + open + (seq!['['] + list + seq![']']) =~= front + (open + seq!['[']) + list
        + seq![']']);
}

proof fn lemma_imu(i: ImuView, texts: Seq<Seq<char>>)
    ensures
        ({
            let names = seq!["frame_id"@, "lin_acc"@, "ang_vel"@];
            let values = seq![
                Json::Text(i.header.frame_id),
                numbers(seq![texts[1], texts[2], texts[3]]),
                numbers(seq![texts[4], texts[5], texts[6]]),
            ];
            inside(names, values) == json::imu_text(i, texts)
        }),
{
    let n0 = "frame_id"@;
    let n1 = "lin_acc"@;
    let n2 = "ang_vel"@;
    let v0 = Json::Text(i.header.frame_id);
    let v1 = numbers(seq![texts[1], texts[2], texts[3]]);
    let v2 = numbers(seq![texts[4], texts[5], texts[6]]);
    assert("\"frame_id\":"@ == json::quoted(n0) + seq![':']) by {
        reveal_strlit("\"frame_id\":");
        reveal_strlit("frame_id");
        lemma_name("\"frame_id\":"@, Seq::empty(), n0);
    }
    assert(",\"lin_acc\":"@ == seq![','] + (json::quoted(n1) + seq![':'])) by {
        reveal_strlit(",\"lin_acc\":");
        reveal_strlit("lin_acc");
        lemma_name(",\"lin_acc\":"@, seq![','], n1);
    }
    assert(",\"ang_vel\":"@ == seq![','] + (json::quoted(n2) + seq![':'])) by {
        reveal_strlit(",\"ang_vel\":");
        reveal_strlit("ang_vel");
        lemma_name(",\"ang_vel\":"@, seq![','], n2);
    }
    lemma_three_numbers(texts[1], texts[2], texts[3]);
    lemma_three_numbers(texts[4], texts[5], texts[6]);
    let names = Seq::<Seq<char>>::empty();
    let values = Seq::<Json>::empty();
    lemma_one("\"frame_id\":"@, n0, v0);
    lemma_one_more(names.push(n0), values.push(v0), ",\"lin_acc\":"@, n1, v1);
    lemma_one_more(
        names.push(n0).push(n1),
        values.push(v0).push(v1),
        ",\"ang_vel\":"@,
        n2,
        v2,
    );
    assert(Seq::<Seq<char>>::empty().push(n0).push(n1).push(n2) =~= seq![n0, n1, n2]);
    assert(Seq::<Json>::empty().push(v0).push(v1).push(v2) =~= seq![v0, v1, v2]);
}

proof fn lemma_pose(p: PoseView, texts: Seq<Seq<char>>)
    ensures
        ({
            let names = seq!["frame_id"@, "position"@, "orientation"@];
            let values = seq![
                Json::Text(p.header.frame_id),
                numbers(seq![texts[1], texts[2], texts[3]]),
                numbers(seq![texts[4], texts[5], texts[6], texts[7]]),
            ];
            inside(names, values) == json::pose_text(p, texts)
        }),
{
    let n0 = "frame_id"@;
    let n1 = "position"@;
    let n2 = "orientation"@;
    let v0 = Json::Text(p.header.frame_id);
    let v1 = numbers(seq![texts[1], texts[2], texts[3]]);
    let v2 = numbers(seq![texts[4], texts[5], texts[6], texts[7]]);
    let open = seq![','] + (json::quoted(n2) + seq![':']);
    assert("\"frame_id\":"@ == json::quoted(n0) + seq![':']) by {
        reveal_strlit("\"frame_id\":");
        reveal_strlit("frame_id");
        lemma_name("\"frame_id\":"@, Seq::empty(), n0);
    }
    assert(",\"position\":"@ == seq![','] + (json::quoted(n1) + seq![':'])) by {
        reveal_strlit(",\"position\":");
        reveal_strlit("position");
        lemma_name(",\"position\":"@, seq![','], n1);
    }
    assert(",\"orientation\":["@ =~= open + seq!['[']) by {
        reveal_strlit(",\"orientation\":[");
        reveal_strlit("orientation");
        lemma_plain(n2);
    }
    assert(","@ =~= seq![',']) by {
        reveal_strlit(",");
    }
    assert("]"@ =~= seq![']']) by {
        reveal_strlit("]");
    }
    lemma_three_numbers(texts[1], texts[2], texts[3]);
    lemma_four_numbers(texts[4], texts[5], texts[6], texts[7]);
    let names = Seq::<Seq<char>>::empty();
    let values = Seq::<Json>::empty();
    lemma_one("\"frame_id\":"@, n0, v0);
    lemma_one_more(names.push(n0), values.push(v0), ",\"position\":"@, n1, v1);
    lemma_one_more(names.push(n0).push(n1), values.push(v0).push(v1), open, n2, v2);
    lemma_reopened_four(
        inside(names.push(n0).push(n1), values.push(v0).push(v1)),
        open,
        texts[4],
        texts[5],
        texts[6],
        texts[7],
    );
    assert(Seq::<Seq<char>>::empty().push(n0).push(n1).push(n2) =~= seq![n0, n1, n2]);
    assert(Seq::<Json>::empty().push(v0).push(v1).push(v2) =~= seq![v0, v1, v2]);
}

proof fn lemma_reopened_four(
    front: Seq<char>,
    open: Seq<char>,
    a: Seq<char>,
    b: Seq<char>,
    c: Seq<char>,
    e: Seq<char>,
)
    ensures
        front + open + (seq!['['] + a + seq![','] + b + seq![','] + c + seq![','] + e + seq![']'])
            == front + (open + seq!['[']) + a + seq![','] + b + seq![','] + c + seq![','] + e
            + seq![']'],
{
    let list = a + seq![','] + b + seq![','] + c + seq![','] + e;
    lemma_reopened(front, open, list);
    assert(seq!['['] + a + seq![','] + b + seq![','] + c + seq![','] + e + seq![']'] =~= seq!['[']
        + list + seq![']']);
    assert(front + (open + seq!['[']) + list =~= front + (open + seq!['[']) + a + seq![','] + b
        + seq![','] + c + seq![','] + e);
}

proof fn lemma_scene(v: SceneView)
    ensures
        ({
            let names = seq!["world_frame"@, "channels"@];
            let values = seq![Json::Text(v.world_frame), Json::List(role_values(v.channels))];
            inside(names, values) == json::scene_text(v)
        }),
{
    let n0 = "world_frame"@;
    let n1 = "channels"@;
    let v0 = Json::Text(v.world_frame);
    let v1 = Json::List(role_values(v.channels));
    let open = seq![','] + (json::quoted(n1) + seq![':']);
    let list = json::roles_text(v.channels, v.channels.len());
    assert("\"world_frame\":"@ == json::quoted(n0) + seq![':']) by {
        reveal_strlit("\"world_frame\":");
        reveal_strlit("world_frame");
        lemma_name("\"world_frame\":"@, Seq::empty(), n0);
    }
    assert(",\"channels\":["@ =~= open + seq!['[']) by {
        reveal_strlit(",\"channels\":[");
        reveal_strlit("channels");
        lemma_plain(n1);
    }
    assert("]"@ =~= seq![']']) by {
        reveal_strlit("]");
    }
    lemma_roles(v.channels, v.channels.len());
    let names = Seq::<Seq<char>>::empty();
    let values = Seq::<Json>::empty();
    lemma_one("\"world_frame\":"@, n0, v0);
    lemma_one_more(names.push(n0), values.push(v0), open, n1, v1);
    lemma_reopened(inside(names.push(n0), values.push(v0)), open, list);
    assert(Seq::<Seq<char>>::empty().push(n0).push(n1) =~= seq![n0, n1]);
    assert(Seq::<Json>::empty().push(v0).push(v1) =~= seq![v0, v1]);
}

proof fn lemma_hex(payload: Seq<u8>)
    ensures
        inside(seq!["payload_hex"@], seq![Json::Text(text::hex_text(payload))]) == json::hex_part(
            payload,
        ),
{
    let n0 = "payload_hex"@;
    assert("\"payload_hex\":"@ == json::quoted(n0) + seq![':']) by {
        reveal_strlit("\"payload_hex\":");
        reveal_strlit("payload_hex");
        lemma_name("\"payload_hex\":"@, Seq::empty(), n0);
    }
    lemma_one("\"payload_hex\":"@, n0, Json::Text(text::hex_text(payload)));
}

#[verifier::rlimit(40)]
proof fn lemma_content(m: MessageView, texts: Seq<Seq<char>>)
    ensures
        ({
            let (names, values) = content_members(json::content_of(m), m.payload, texts);
            &&& names.len() == values.len()
            &&& values.len() > 0
            &&& inside(names, values) == json::content_text(m, texts)
        }),
{
    match json::content_of(m) {
        Content::Cloud(c) => lemma_cloud(c, texts),
        Content::Imu(i) => lemma_imu(i, texts),
        Content::Pose(p) => lemma_pose(p, texts),
        Content::Scene(v) => lemma_scene(v),
        Content::Bytes => lemma_hex(m.payload),
    }
}

/// An object that begins with a channel, a time and a type.
proof fn lemma_begun(
    channel: Seq<char>,
    stamp: Seq<char>,
    typename: Seq<char>,
    more: Seq<Seq<char>>,
    others: Seq<Json>,
    rest: Seq<char>,
)
    requires
        more.len() == others.len(),
        others.len() > 0,
        inside(more, others) == rest,
    ensures
        jsonvalue::written(
            Json::Object(
                seq!["channel"@, "stamp"@, "type"@] + more,
                seq![Json::Text(channel), Json::Number(stamp), Json::Text(typename)] + others,
            ),
        ) == "{\"channel\":"@ + json::quoted(channel) + ",\"stamp\":"@ + stamp + ",\"type\":"@
            + json::quoted(typename) + ","@ + rest + "}"@,
{
    let n0 = "channel"@;
    let n1 = "stamp"@;
    let n2 = "type"@;
    let v0 = Json::Text(channel);
    let v1 = Json::Number(stamp);
    let v2 = Json::Text(typename);
    let first = json::quoted(n0) + seq![':'];
    assert("{\"channel\":"@ == seq!['{'] + (json::quoted(n0) + seq![':'])) by {
        reveal_strlit("{\"channel\":");
        reveal_strlit("channel");
        lemma_name("{\"channel\":"@, seq!['{'], n0);
    }
    assert(",\"stamp\":"@ == seq![','] + (json::quoted(n1) + seq![':'])) by {
        reveal_strlit(",\"stamp\":");
        reveal_strlit("stamp");
        lemma_name(",\"stamp\":"@, seq![','], n1);
    }
    assert(",\"type\":"@ == seq![','] + (json::quoted(n2) + seq![':'])) by {
        reveal_strlit(",\"type\":");
        reveal_strlit("type");
        lemma_name(",\"type\":"@, seq![','], n2);
    }
    assert(","@ =~= seq![',']) by {
        reveal_strlit(",");
    }
    assert("}"@ =~= seq!['}']) by {
        reveal_strlit("}");
    }
    let names = Seq::<Seq<char>>::empty();
    let values = Seq::<Json>::empty();
    lemma_one(first, n0, v0);
    lemma_one_more(names.push(n0), values.push(v0), ",\"stamp\":"@, n1, v1);
    lemma_one_more(names.push(n0).push(n1), values.push(v0).push(v1), ",\"type\":"@, n2, v2);
    lemma_inside_both(
        names.push(n0).push(n1).push(n2),
        values.push(v0).push(v1).push(v2),
        more,
        others,
    );
    lemma_braces_and_rest(
        first,
        json::quoted(channel),
        ",\"stamp\":"@,
        stamp,
        ",\"type\":"@,
        json::quoted(typename),
        rest,
    );
    assert(Seq::<Seq<char>>::empty().push(n0).push(n1).push(n2) =~= seq![n0, n1, n2]);
    assert(Seq::<Json>::empty().push(v0).push(v1).push(v2) =~= seq![v0, v1, v2]);
}

/// The line of a message is its object as it is written.
proof fn lemma_document(m: MessageView, texts: Seq<Seq<char>>)
    ensures
        jsonvalue::written(document(m, texts)) == json::json_text(m, texts),
{
    lemma_content(m, texts);
    let (more, others) = content_members(json::content_of(m), m.payload, texts);
    lemma_begun(
        m.channel,
        texts[0],
        m.schema.typename,
        more,
        others,
        json::content_text(m, texts),
    );
}

proof fn lemma_digits_all(s: Seq<char>, i: int)
    requires
        0 <= i <= s.len(),
        forall|k: int| i <= k < s.len() ==> jsonvalue::is_digit(#[trigger] s[k]),
    ensures
        jsonvalue::digits_end(s, i) == s.len(),
    decreases s.len() - i,
{
    if i < s.len() {
        lemma_digits_all(s, i + 1);
    }
}

/// A number in decimal has no needless zero in front.
proof fn lemma_decimal(n: nat)
    ensures
        text::decimal(n).len() > 0,
        forall|k: int|
            0 <= k < text::decimal(n).len() ==> jsonvalue::is_digit(
                #[trigger] text::decimal(n)[k],
            ),
        n > 0 ==> text::decimal(n)[0] != '0',
    decreases n,
{
    if n >= 10 {
        lemma_decimal(n / 10);
    }
}

proof fn lemma_whole(n: u32)
    ensures
        jsonvalue::valid(whole(n)),
{
    let s = text::decimal(n as nat);
    lemma_decimal(n as nat);
    assert(jsonvalue::is_digit(s[0]));
    lemma_digits_all(s, 0);
}

proof fn lemma_all_valid(items: Seq<Json>, n: int)
    requires
        n <= items.len(),
        forall|i: int| 0 <= i < n ==> jsonvalue::valid(#[trigger] items[i]),
    ensures
        jsonvalue::all_valid(items, n),
    decreases n,
{
    if n > 0 {
        lemma_all_valid(items, n - 1);
        assert(jsonvalue::valid(items[n - 1]));
    }
}

proof fn lemma_numbers(texts: Seq<Seq<char>>)
    requires
        forall|i: int| 0 <= i < texts.len() ==> jsonvalue::is_number(#[trigger] texts[i]),
    ensures
        jsonvalue::valid(numbers(texts)),
{
    let items = numbers(texts)->List_0;
    assert forall|i: int| 0 <= i < items.len() implies jsonvalue::valid(#[trigger] items[i]) by {
        assert(items[i] == Json::Number(texts[i]));
    }
    lemma_all_valid(items, items.len() as int);
}

proof fn lemma_points_valid(texts: Seq<Seq<char>>, n: nat)
    requires
        texts.len() == 1 + 3 * n,
        forall|i: int| 0 <= i < texts.len() ==> jsonvalue::is_number(#[trigger] texts[i]),
    ensures
        jsonvalue::valid(Json::List(points(texts, n))),
{
    let items = points(texts, n);
    assert forall|i: int| 0 <= i < items.len() implies jsonvalue::valid(#[trigger] items[i]) by {
        lemma_numbers(seq![texts[3 * i + 1], texts[3 * i + 2], texts[3 * i + 3]]);
    }
    lemma_all_valid(items, items.len() as int);
}

proof fn lemma_roles_valid(roles: Seq<RoleView>)
    ensures
        jsonvalue::valid(Json::List(role_values(roles))),
{
    let items = role_values(roles);
    assert forall|i: int| 0 <= i < items.len() implies jsonvalue::valid(#[trigger] items[i]) by {
        let r = roles[i];
        let parts = seq![Json::Text(r.name), Json::Text(r.role), Json::Text(r.frame_id)];
        lemma_all_valid(parts, 3);
        assert(items[i] == role_value(r));
    }
    lemma_all_valid(items, items.len() as int);
}

/// How many texts of numbers a message with the given contents takes.
spec fn texts_for(content: Content) -> nat {
    match content {
        Content::Cloud(c) => 1 + 3 * json::point_count(c),
        Content::Imu(_) => 7,
        Content::Pose(_) => 8,
        Content::Scene(_) => 1,
        Content::Bytes => 1,
    }
}

#[verifier::rlimit(40)]
proof fn lemma_texts_for(m: MessageView)
    ensures
        json::scalars_of(m).len() == texts_for(json::content_of(m)),
{
    if let Content::Cloud(c) = json::content_of(m) {
        json::lemma_coordinates_len(c, json::point_count(c));
    }
}

proof fn lemma_values(content: Content, payload: Seq<u8>, texts: Seq<Seq<char>>)
    requires
        texts.len() == texts_for(content),
        forall|i: int| 0 <= i < texts.len() ==> jsonvalue::is_number(#[trigger] texts[i]),
    ensures
        ({
            let (names, values) = content_members(content, payload, texts);
            &&& names.len() == values.len()
            &&& forall|i: int| 0 <= i < values.len() ==> jsonvalue::valid(#[trigger] values[i])
        }),
{
    match content {
        Content::Cloud(c) => {
            lemma_whole(c.height);
            lemma_whole(c.width);
            lemma_whole(c.point_step);
            lemma_whole(c.row_step);
            lemma_points_valid(texts, json::point_count(c));
        },
        Content::Imu(_) => {
            lemma_numbers(seq![texts[1], texts[2], texts[3]]);
            lemma_numbers(seq![texts[4], texts[5], texts[6]]);
        },
        Content::Pose(_) => {
            lemma_numbers(seq![texts[1], texts[2], texts[3]]);
            lemma_numbers(seq![texts[4], texts[5], texts[6], texts[7]]);
        },
        Content::Scene(v) => {
            lemma_roles_valid(v.channels);
        },
        Content::Bytes => {},
    }
}

proof fn lemma_object_valid(
    names: Seq<Seq<char>>,
    values: Seq<Json>,
    more: Seq<Seq<char>>,
    others: Seq<Json>,
)
    requires
        names.len() == values.len(),
        more.len() == others.len(),
        forall|i: int| 0 <= i < values.len() ==> jsonvalue::valid(#[trigger] values[i]),
        forall|i: int| 0 <= i < others.len() ==> jsonvalue::valid(#[trigger] others[i]),
    ensures
        jsonvalue::valid(Json::Object(names + more, values + others)),
{
    let all = values + others;
    assert forall|i: int| 0 <= i < all.len() implies jsonvalue::valid(#[trigger] all[i]) by {
        if i < values.len() {
            assert(all[i] == values[i]);
        } else {
            assert(all[i] == others[i - values.len()]);
        }
    }
    lemma_all_valid(all, all.len() as int);
}

proof fn lemma_object_of_valid(
    channel: Seq<char>,
    typename: Seq<char>,
    content: Content,
    payload: Seq<u8>,
    texts: Seq<Seq<char>>,
)
    requires
        texts.len() == texts_for(content),
        forall|i: int| 0 <= i < texts.len() ==> jsonvalue::is_number(#[trigger] texts[i]),
    ensures
        jsonvalue::valid(object_of(channel, typename, content, payload, texts)),
{
    lemma_values(content, payload, texts);
    let (names, values) = content_members(content, payload, texts);
    let first = seq!["channel"@, "stamp"@, "type"@];
    let head = seq![Json::Text(channel), Json::Number(texts[0]), Json::Text(typename)];
    assert(jsonvalue::is_number(texts[0]));
    lemma_object_valid(first, head, names, values);
}

/// The line of a message is a JSON object, if its numbers are written out as JSON numbers: what is
/// read from it, from its first character to its last, is the object with the channel, the time,
/// the type and the contents of the message.
pub proof fn law_line_is_a_json_object(m: MessageView, texts: Seq<Seq<char>>)
    requires
        texts.len() == json::scalars_of(m).len(),
        forall|i: int| 0 <= i < texts.len() ==> jsonvalue::is_number(#[trigger] texts[i]),
    ensures
        jsonvalue::value_from(json::json_text(m, texts), 0) == Some(
            (document(m, texts), json::json_text(m, texts).len() as int),
        ),
        document(m, texts) is Object,
{
    lemma_texts_for(m);
    lemma_object_of_valid(
        m.channel,
        m.schema.typename,
        json::content_of(m),
        m.payload,
        texts,
    );
    lemma_document(m, texts);
    jsonvalue::law_written_value_reads_back(document(m, texts));
}

// ---------- what the lines of each type say ----------

/// The numbers of a message written out by `w`.
pub open spec fn written_out(m: MessageView, w: spec_fn(Scalar) -> Seq<char>) -> Seq<Seq<char>> {
    json::scalars_of(m).map_values(w)
}

/// Whether `w` writes numbers out as JSON numbers.
pub open spec fn writes_numbers(w: spec_fn(Scalar) -> Seq<char>) -> bool {
    forall|s: Scalar| jsonvalue::is_number(#[trigger] w(s))
}

/// Whether the line of a message, with its numbers written out by `w`, is the object of members of
/// these names and values, from its first character to its last.
pub open spec fn line_is(
    m: MessageView,
    w: spec_fn(Scalar) -> Seq<char>,
    names: Seq<Seq<char>>,
    values: Seq<Json>,
) -> bool {
    let line = json::json_text(m, written_out(m, w));
    jsonvalue::value_from(line, 0) == Some((Json::Object(names, values), line.len() as int))
}

#[verifier::rlimit(60)]
#[verifier::spinoff_prover]
proof fn lemma_line_is(
    m: MessageView,
    w: spec_fn(Scalar) -> Seq<char>,
    names: Seq<Seq<char>>,
    values: Seq<Json>,
)
    requires
        writes_numbers(w),
        ({
            let (more, others) = content_members(
                json::content_of(m),
                m.payload,
                written_out(m, w),
            );
            &&& names =~= seq!["channel"@, "stamp"@, "type"@] + more
            &&& values =~= seq![
                Json::Text(m.channel),
                Json::Number(w(Scalar::Stamp(m.stamp))),
                Json::Text(m.schema.typename),
            ] + others
        }),
    ensures
        line_is(m, w, names, values),
{
    let texts = written_out(m, w);
    lemma_texts_for(m);
    assert(json::scalars_of(m)[0] == Scalar::Stamp(m.stamp));
    assert(texts[0] == w(Scalar::Stamp(m.stamp)));
    assert forall|i: int| 0 <= i < texts.len() implies jsonvalue::is_number(
        #[trigger] texts[i],
    ) by {
        assert(texts[i] == w(json::scalars_of(m)[i]));
    }
    law_line_is_a_json_object(m, texts);
}

/// The line of a measurement says its channel, its time and its type, the frame, the three
/// accelerations and the three turn rates.
#[verifier::rlimit(60)]
#[verifier::spinoff_prover]
pub proof fn law_line_of_a_measurement(m: MessageView, v: ImuView, w: spec_fn(Scalar) -> Seq<char>)
    requires
        m.schema.typename == "doracap/Imu"@,
        Imu::fits(v),
        m.payload == Imu::encoded(v),
        writes_numbers(w),
    ensures
        line_is(
            m,
            w,
            seq!["channel"@, "stamp"@, "type"@, "frame_id"@, "lin_acc"@, "ang_vel"@],
            seq![
                Json::Text(m.channel),
                Json::Number(w(Scalar::Stamp(m.stamp))),
                Json::Text("doracap/Imu"@),
                Json::Text(v.header.frame_id),
                Json::List(
                    seq![
                        Json::Number(w(Scalar::Plain(v.lin_acc[0]))),
                        Json::Number(w(Scalar::Plain(v.lin_acc[1]))),
                        Json::Number(w(Scalar::Plain(v.lin_acc[2]))),
                    ],
                ),
                Json::List(
                    seq![
                        Json::Number(w(Scalar::Plain(v.ang_vel[0]))),
                        Json::Number(w(Scalar::Plain(v.ang_vel[1]))),
                        Json::Number(w(Scalar::Plain(v.ang_vel[2]))),
                    ],
                ),
            ],
        ),
{
    Imu::law_decodes_to_itself(v);
    lemma_type_names_differ();
    assert(json::content_of(m) == Content::Imu(v));
    let texts = written_out(m, w);
    let s = json::scalars_of(m);
    assert(s[1] == Scalar::Plain(v.lin_acc[0]) && s[2] == Scalar::Plain(v.lin_acc[1]) && s[3]
        == Scalar::Plain(v.lin_acc[2]));
    assert(s[4] == Scalar::Plain(v.ang_vel[0]) && s[5] == Scalar::Plain(v.ang_vel[1]) && s[6]
        == Scalar::Plain(v.ang_vel[2]));
    let a = seq![
        Json::Number(w(Scalar::Plain(v.lin_acc[0]))),
        Json::Number(w(Scalar::Plain(v.lin_acc[1]))),
        Json::Number(w(Scalar::Plain(v.lin_acc[2]))),
    ];
    let b = seq![
        Json::Number(w(Scalar::Plain(v.ang_vel[0]))),
        Json::Number(w(Scalar::Plain(v.ang_vel[1]))),
        Json::Number(w(Scalar::Plain(v.ang_vel[2]))),
    ];
    assert(numbers(seq![texts[1], texts[2], texts[3]])->List_0 =~= a);
    assert(numbers(seq![texts[4], texts[5], texts[6]])->List_0 =~= b);
    lemma_line_is(
        m,
        w,
        seq!["channel"@, "stamp"@, "type"@, "frame_id"@, "lin_acc"@, "ang_vel"@],
        seq![
            Json::Text(m.channel),
            Json::Number(w(Scalar::Stamp(m.stamp))),
            Json::Text(m.schema.typename),
            Json::Text(v.header.frame_id),
            Json::List(a),
            Json::List(b),
        ],
    );
}

/// The line of a pose says its channel, its time and its type, the frame, the position and the
/// orientation.
#[verifier::rlimit(60)]
#[verifier::spinoff_prover]
pub proof fn law_line_of_a_pose(m: MessageView, v: PoseView, w: spec_fn(Scalar) -> Seq<char>)
    requires
        m.schema.typename == "doracap/PoseStamped"@,
        PoseStamped::fits(v),
        m.payload == PoseStamped::encoded(v),
        writes_numbers(w),
    ensures
        line_is(
            m,
            w,
            seq!["channel"@, "stamp"@, "type"@, "frame_id"@, "position"@, "orientation"@],
            seq![
                Json::Text(m.channel),
                Json::Number(w(Scalar::Stamp(m.stamp))),
                Json::Text("doracap/PoseStamped"@),
                Json::Text(v.header.frame_id),
                Json::List(
                    seq![
                        Json::Number(w(Scalar::Plain(v.position[0]))),
                        Json::Number(w(Scalar::Plain(v.position[1]))),
                        Json::Number(w(Scalar::Plain(v.position[2]))),
                    ],
                ),
                Json::List(
                    seq![
                        Json::Number(w(Scalar::Plain(v.orientation[0]))),
                        Json::Number(w(Scalar::Plain(v.orientation[1]))),
                        Json::Number(w(Scalar::Plain(v.orientation[2]))),
                        Json::Number(w(Scalar::Plain(v.orientation[3]))),
                    ],
                ),
            ],
        ),
{
    PoseStamped::law_decodes_to_itself(v);
    lemma_type_names_differ();
    assert(json::content_of(m) == Content::Pose(v));
    let texts = written_out(m, w);
    let s = json::scalars_of(m);
    assert(s[1] == Scalar::Plain(v.position[0]) && s[2] == Scalar::Plain(v.position[1]) && s[3]
        == Scalar::Plain(v.position[2]));
    assert(s[4] == Scalar::Plain(v.orientation[0]) && s[5] == Scalar::Plain(v.orientation[1])
        && s[6] == Scalar::Plain(v.orientation[2]) && s[7] == Scalar::Plain(v.orientation[3]));
    let a = seq![
        Json::Number(w(Scalar::Plain(v.position[0]))),
        Json::Number(w(Scalar::Plain(v.position[1]))),
        Json::Number(w(Scalar::Plain(v.position[2]))),
    ];
    let b = seq![
        Json::Number(w(Scalar::Plain(v.orientation[0]))),
        Json::Number(w(Scalar::Plain(v.orientation[1]))),
        Json::Number(w(Scalar::Plain(v.orientation[2]))),
        Json::Number(w(Scalar::Plain(v.orientation[3]))),
    ];
    assert(numbers(seq![texts[1], texts[2], texts[3]])->List_0 =~= a);
    assert(numbers(seq![texts[4], texts[5], texts[6], texts[7]])->List_0 =~= b);
    lemma_line_is(
        m,
        w,
        seq!["channel"@, "stamp"@, "type"@, "frame_id"@, "position"@, "orientation"@],
        seq![
            Json::Text(m.channel),
            Json::Number(w(Scalar::Stamp(m.stamp))),
            Json::Text(m.schema.typename),
            Json::Text(v.header.frame_id),
            Json::List(a),
            Json::List(b),
        ],
    );
}

/// The line of a scene says its channel, its time and its type, the world frame, and of each
/// channel, in order, its name, its role and its frame.
#[verifier::rlimit(60)]
#[verifier::spinoff_prover]
pub proof fn law_line_of_a_scene(m: MessageView, v: SceneView, w: spec_fn(Scalar) -> Seq<char>)
    requires
        m.schema.typename == "doracap/SceneMeta"@,
        SceneMeta::fits(v),
        m.payload == SceneMeta::encoded(v),
        writes_numbers(w),
    ensures
        line_is(
            m,
            w,
            seq!["channel"@, "stamp"@, "type"@, "world_frame"@, "channels"@],
            seq![
                Json::Text(m.channel),
                Json::Number(w(Scalar::Stamp(m.stamp))),
                Json::Text("doracap/SceneMeta"@),
                Json::Text(v.world_frame),
                Json::List(
                    Seq::new(
                        v.channels.len(),
                        |i: int|
                            Json::Object(
                                seq!["name"@, "role"@, "frame_id"@],
                                seq![
                                    Json::Text(v.channels[i].name),
                                    Json::Text(v.channels[i].role),
                                    Json::Text(v.channels[i].frame_id),
                                ],
                            ),
                    ),
                ),
            ],
        ),
{
    SceneMeta::law_decodes_to_itself(v);
    lemma_type_names_differ();
    assert(json::content_of(m) == Content::Scene(v));
    let roles = Seq::new(
        v.channels.len(),
        |i: int|
            Json::Object(
                seq!["name"@, "role"@, "frame_id"@],
                seq![
                    Json::Text(v.channels[i].name),
                    Json::Text(v.channels[i].role),
                    Json::Text(v.channels[i].frame_id),
                ],
            ),
    );
    assert(role_values(v.channels) =~= roles);
    lemma_line_is(
        m,
        w,
        seq!["channel"@, "stamp"@, "type"@, "world_frame"@, "channels"@],
        seq![
            Json::Text(m.channel),
            Json::Number(w(Scalar::Stamp(m.stamp))),
            Json::Text(m.schema.typename),
            Json::Text(v.world_frame),
            Json::List(roles),
        ],
    );
}

/// The line of a cloud says its channel, its time and its type, the frame, the height, the width,
/// the bytes of a point and of a row, and of each point, in order, the three numbers that are
/// listed for it.
#[verifier::rlimit(60)]
#[verifier::spinoff_prover]
pub proof fn law_line_of_a_cloud(m: MessageView, v: CloudView, w: spec_fn(Scalar) -> Seq<char>)
    requires
        m.schema.typename == "doracap/PointCloud"@,
        PointCloud::fits(v),
        m.payload == PointCloud::encoded(v),
        writes_numbers(w),
    ensures
        ({
            let s = json::scalars_of(m);
            line_is(
                m,
                w,
                seq![
                    "channel"@,
                    "stamp"@,
                    "type"@,
                    "frame_id"@,
                    "height"@,
                    "width"@,
                    "point_step"@,
                    "row_step"@,
                    "points"@,
                ],
                seq![
                    Json::Text(m.channel),
                    Json::Number(w(Scalar::Stamp(m.stamp))),
                    Json::Text("doracap/PointCloud"@),
                    Json::Text(v.header.frame_id),
                    Json::Number(text::decimal(v.height as nat)),
                    Json::Number(text::decimal(v.width as nat)),
                    Json::Number(text::decimal(v.point_step as nat)),
                    Json::Number(text::decimal(v.row_step as nat)),
                    Json::List(
                        Seq::new(
                            v.width as nat * v.height as nat,
                            |i: int|
                                Json::List(
                                    seq![
                                        Json::Number(w(s[1 + 3 * i])),
                                        Json::Number(w(s[2 + 3 * i])),
                                        Json::Number(w(s[3 + 3 * i])),
                                    ],
                                ),
                        ),
                    ),
                ],
            )
        }),
{
    PointCloud::law_decodes_to_itself(v);
    assert(json::content_of(m) == Content::Cloud(v));
    let s = json::scalars_of(m);
    let texts = written_out(m, w);
    let n = v.width as nat * v.height as nat;
    lemma_texts_for(m);
    let list = Seq::new(
        n,
        |i: int|
            Json::List(
                seq![
                    Json::Number(w(s[1 + 3 * i])),
                    Json::Number(w(s[2 + 3 * i])),
                    Json::Number(w(s[3 + 3 * i])),
                ],
            ),
    );
    let p = points(texts, n);
    assert forall|i: int| 0 <= i < n implies p[i] == list[i] by {
        let t = seq![texts[3 * i + 1], texts[3 * i + 2], texts[3 * i + 3]];
        assert(numbers(t)->List_0 =~= seq![
            Json::Number(w(s[1 + 3 * i])),
            Json::Number(w(s[2 + 3 * i])),
            Json::Number(w(s[3 + 3 * i])),
        ]);
    }
    assert(p =~= list);
    lemma_line_is(
        m,
        w,
        seq![
            "channel"@,
            "stamp"@,
            "type"@,
            "frame_id"@,
            "height"@,
            "width"@,
            "point_step"@,
            "row_step"@,
            "points"@,
        ],
        seq![
            Json::Text(m.channel),
            Json::Number(w(Scalar::Stamp(m.stamp))),
            Json::Text(m.schema.typename),
            Json::Text(v.header.frame_id),
            Json::Number(text::decimal(v.height as nat)),
            Json::Number(text::decimal(v.width as nat)),
            Json::Number(text::decimal(v.point_step as nat)),
            Json::Number(text::decimal(v.row_step as nat)),
            Json::List(list),
        ],
    );
}

/// The line of a message of another type, or of bytes that are no message of their type, says its
/// channel, its time and its type, and its bytes in hexadecimal.
#[verifier::rlimit(60)]
#[verifier::spinoff_prover]
pub proof fn law_line_of_other_bytes(m: MessageView, w: spec_fn(Scalar) -> Seq<char>)
    requires
        m.schema.typename == "doracap/PointCloud"@ ==> PointCloud::decoded(m.payload) is Err,
        m.schema.typename == "doracap/Imu"@ ==> Imu::decoded(m.payload) is Err,
        m.schema.typename == "doracap/PoseStamped"@ ==> PoseStamped::decoded(m.payload) is Err,
        m.schema.typename == "doracap/SceneMeta"@ ==> SceneMeta::decoded(m.payload) is Err,
        writes_numbers(w),
    ensures
        line_is(
            m,
            w,
            seq!["channel"@, "stamp"@, "type"@, "payload_hex"@],
            seq![
                Json::Text(m.channel),
                Json::Number(w(Scalar::Stamp(m.stamp))),
                Json::Text(m.schema.typename),
                Json::Text(text::hex_text(m.payload)),
            ],
        ),
{
    assert(json::content_of(m) == Content::Bytes);
    lemma_line_is(
        m,
        w,
        seq!["channel"@, "stamp"@, "type"@, "payload_hex"@],
        seq![
            Json::Text(m.channel),
            Json::Number(w(Scalar::Stamp(m.stamp))),
            Json::Text(m.schema.typename),
            Json::Text(text::hex_text(m.payload)),
        ],
    );
}

proof fn lemma_type_names_differ()
    ensures
        "doracap/PointCloud"@.len() == 18,
        "doracap/Imu"@.len() == 11,
        "doracap/PoseStamped"@.len() == 19,
        "doracap/SceneMeta"@.len() == 17,
{
    reveal_strlit("doracap/PointCloud");
    reveal_strlit("doracap/Imu");
    reveal_strlit("doracap/PoseStamped");
    reveal_strlit("doracap/SceneMeta");
}

} // verus!
