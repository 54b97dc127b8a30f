//! Recording of a mapping run: sensor data, the poses that mapping finds, and what the channels
//! are for.

use crate::fastlio::conv;
use crate::fastlio::conv::{encode, SensorData};
use crate::layout::RecordView;
use crate::message::{ChannelView, Error, Schema, SchemaView, Timestamp};
use crate::msgs::codec;
use crate::msgs::codec::Codec;
use crate::msgs::types::{
    ChannelRole, Header, HeaderView, Imu, PointCloud, PoseStamped, PoseView, RoleView, SceneMeta,
    SceneView, Time,
};
use crate::record::{Recorder, RecorderView};
use crate::singlefile::writer::{SingleFileWriter, WriterView};
use crate::singlefile::{laws, writer};
use crate::storage::{ChannelId, SchemaId, StorageWriter};
use crate::text::text_of;
use crate::{layout, message, record};
use vstd::prelude::*;

verus! {

/// The schema of a standard message.
pub open spec fn schema_for<T: Codec>() -> SchemaView {
    SchemaView { id: 0, typename: T::TYPE_NAME@, encoding: "rbag1"@ }
}

/// The schema of a standard message.
pub fn schema_of<T: Codec>() -> (s: Schema)
    ensures
        s@ == schema_for::<T>(),
{
    Schema { id: 0, typename: text_of(T::TYPE_NAME), encoding: text_of("rbag1") }
}

pub open spec fn role_view(name: Seq<char>, frame_id: Seq<char>) -> RoleView {
    RoleView { name, role: name, frame_id }
}

/// What the channels of a mapping run are for.
pub open spec fn scene_view(world_frame: Seq<char>, has_pose: bool) -> SceneView {
    let sensors = seq![role_view("imu"@, "imu"@), role_view("lidar"@, "lidar"@)];
    SceneView {
        world_frame,
        channels: if has_pose {
            sensors.push(role_view("pose"@, world_frame))
        } else {
            sensors
        },
    }
}

fn role(name: &str, frame_id: &str) -> (r: ChannelRole)
    ensures
        r@ == role_view(name@, frame_id@),
{
    ChannelRole { name: text_of(name), role: text_of(name), frame_id: text_of(frame_id) }
}

/// What the channels of a mapping run are for.
pub fn scene_meta(world_frame: &str, has_pose: bool) -> (r: SceneMeta)
    ensures
        r@ == scene_view(world_frame@, has_pose),
{
    let mut channels: Vec<ChannelRole> = Vec::new();
    channels.push(role("imu", "imu"));
    channels.push(role("lidar", "lidar"));
    if has_pose {
        channels.push(role("pose", world_frame));
    }
    assert(message::views(channels@) =~= scene_view(world_frame@, has_pose).channels);
    SceneMeta { world_frame: text_of(world_frame), channels }
}

/// A step of a recording.
#[verifier::ext_equal]
pub enum Step {
    /// A channel is added.
    Channel(Seq<char>, SchemaView),
    /// A message is written.
    Write(Seq<char>, Timestamp, Seq<u8>),
}

/// What adding a channel does, but for the id that it gives.
pub open spec fn channel_step_done<W: StorageWriter>(
    before: RecorderView<W>,
    name: Seq<char>,
    schema: SchemaView,
    after: RecorderView<W>,
    r: Result<(), Error>,
) -> bool {
    exists|id: Result<ChannelId, Error>| #[trigger]
        record::added(before, name, schema, after, id) && (match id {
            Ok(_) => r is Ok,
            Err(e) => r == Err::<(), Error>(e),
        })
}

/// What one step does.
pub open spec fn step_done<W: StorageWriter>(
    before: RecorderView<W>,
    step: Step,
    after: RecorderView<W>,
    r: Result<(), Error>,
) -> bool {
    match step {
        Step::Channel(name, schema) => channel_step_done(before, name, schema, after, r),
        Step::Write(channel, stamp, payload) => record::message_written(
            before,
            channel,
            stamp,
            payload,
            after,
            r,
        ),
    }
}

/// What a step does behind others that led to the state `mid` and ended with `s`: nothing, where
/// one of them failed.
pub open spec fn followed<W: StorageWriter>(
    mid: RecorderView<W>,
    s: Result<(), Error>,
    step: Step,
    after: RecorderView<W>,
    r: Result<(), Error>,
) -> bool {
    match s {
        Err(e) => after == mid && r == Err::<(), Error>(e),
        Ok(_) => step_done(mid, step, after, r),
    }
}

/// What steps do one after the other: the first one that fails is the last one.
pub open spec fn steps_done<W: StorageWriter>(
    before: RecorderView<W>,
    steps: Seq<Step>,
    after: RecorderView<W>,
    r: Result<(), Error>,
) -> bool
    decreases steps.len(),
{
    if steps.len() == 0 {
        after == before && r is Ok
    } else {
        exists|mid: RecorderView<W>, s: Result<(), Error>|
            steps_done(before, steps.drop_last(), mid, s) && #[trigger] followed(
                mid,
                s,
                steps.last(),
                after,
                r,
            )
    }
}

/// A recorder over a writing end that knows nothing yet.
pub open spec fn new_recorder<W: StorageWriter>(writer: W) -> RecorderView<W> {
    RecorderView { writer, schemas: Seq::empty(), channels: Seq::empty() }
}

/// The steps that say what the channels are for.
pub open spec fn scene_steps(world_frame: Seq<char>, has_pose: bool) -> Seq<Step> {
    seq![
        Step::Channel("scene"@, schema_for::<SceneMeta>()),
        Step::Write(
            "scene"@,
            Timestamp(0),
            SceneMeta::encoded(scene_view(world_frame, has_pose)),
        ),
    ]
}

/// The steps with which a recording of sensor data begins: all channels, then what they are for.
pub open spec fn first_steps(has_pose: bool) -> Seq<Step> {
    let sensors = seq![
        Step::Channel("imu"@, schema_for::<Imu>()),
        Step::Channel("lidar"@, schema_for::<PointCloud>()),
    ];
    (if has_pose {
        sensors.push(Step::Channel("pose"@, schema_for::<PoseStamped>()))
    } else {
        sensors
    }) + scene_steps("map"@, has_pose)
}

pub proof fn lemma_channel_step<W: StorageWriter>(
    before: RecorderView<W>,
    name: Seq<char>,
    schema: SchemaView,
    after: RecorderView<W>,
    id: Result<ChannelId, Error>,
    r: Result<(), Error>,
)
    requires
        record::added(before, name, schema, after, id),
        match id {
            Ok(_) => r is Ok,
            Err(e) => r == Err::<(), Error>(e),
        },
    ensures
        step_done(before, Step::Channel(name, schema), after, r),
{
}

/// There is one way to succeed.
proof fn lemma_ok(r: Result<(), Error>)
    requires
        r is Ok,
    ensures
        r == Ok::<(), Error>(()),
{
    match r {
        Ok(u) => {
            assert(u == ());
        },
        Err(_) => {},
    }
}

proof fn lemma_one_more<W: StorageWriter>(
    before: RecorderView<W>,
    steps: Seq<Step>,
    mid: RecorderView<W>,
    step: Step,
    after: RecorderView<W>,
    r: Result<(), Error>,
)
    requires
        steps_done(before, steps, mid, Ok::<(), Error>(())),
        step_done(mid, step, after, r),
    ensures
        steps_done(before, steps.push(step), after, r),
{
    assert(steps.push(step).drop_last() =~= steps);
    assert(steps.push(step).last() == step);
    assert(followed(mid, Ok::<(), Error>(()), step, after, r));
}

/// After a step that failed, no further step is done.
proof fn lemma_stopped<W: StorageWriter>(
    before: RecorderView<W>,
    steps: Seq<Step>,
    after: RecorderView<W>,
    e: Error,
    all: Seq<Step>,
)
    requires
        steps_done(before, steps, after, Err::<(), Error>(e)),
        steps.len() <= all.len(),
        all.take(steps.len() as int) == steps,
    ensures
        steps_done(before, all, after, Err::<(), Error>(e)),
    decreases all.len(),
{
    if steps.len() == all.len() {
        assert(all.take(steps.len() as int) =~= all);
    } else {
        assert(all.drop_last().take(steps.len() as int) =~= steps);
        lemma_stopped(before, steps, after, e, all.drop_last());
        assert(followed(after, Err::<(), Error>(e), all.last(), after, Err::<(), Error>(e)));
    }
}

proof fn lemma_then<W: StorageWriter>(
    before: RecorderView<W>,
    first: Seq<Step>,
    mid: RecorderView<W>,
    second: Seq<Step>,
    after: RecorderView<W>,
    r: Result<(), Error>,
)
    requires
        steps_done(before, first, mid, Ok::<(), Error>(())),
        steps_done(mid, second, after, r),
    ensures
        steps_done(before, first + second, after, r),
    decreases second.len(),
{
    if second.len() == 0 {
        assert(first + second =~= first);
        lemma_ok(r);
    } else {
        let (m, s) = choose|m: RecorderView<W>, s: Result<(), Error>|
            steps_done(mid, second.drop_last(), m, s) && #[trigger] followed(
                m,
                s,
                second.last(),
                after,
                r,
            );
        lemma_then(before, first, mid, second.drop_last(), m, s);
        assert((first + second).drop_last() =~= first + second.drop_last());
        assert((first + second).last() == second.last());
        assert(followed(m, s, (first + second).last(), after, r));
    }
}

/// Adds a channel for standard messages.
fn open_channel<T: Codec, W: StorageWriter>(rec: &mut Recorder<W>, name: &str) -> (r: Result<
    (),
    Error,
>)
    ensures
        steps_done(old(rec)@, seq![Step::Channel(name@, schema_for::<T>())], final(rec)@, r),
{
    let ghost before = rec@;
    let schema: Schema = schema_of::<T>();
    let id: Result<ChannelId, Error> = rec.add_channel(name, &schema);
    let r: Result<(), Error> = match id {
        Ok(_) => Ok(()),
        Err(e) => Err(e),
    };
    proof {
        let step = Step::Channel(name@, schema_for::<T>());
        lemma_channel_step(before, name@, schema@, rec@, id, r);
        lemma_one_more(before, Seq::empty(), before, step, rec@, r);
        assert(Seq::<Step>::empty().push(step) =~= seq![step]);
    }
    r
}

/// Says in a message of its own, at the time zero, what the channels are for.
pub fn write_scene<W: StorageWriter>(
    rec: &mut Recorder<W>,
    world_frame: &str,
    has_pose: bool,
) -> (r: Result<(), Error>)
    ensures
        steps_done(old(rec)@, scene_steps(world_frame@, has_pose), final(rec)@, r),
{
    let ghost before = rec@;
    let ghost steps = scene_steps(world_frame@, has_pose);
    let ghost first = seq![steps[0]];
    let r: Result<(), Error> = open_channel::<SceneMeta, W>(rec, "scene");
    if let Err(e) = r {
        proof {
            assert(steps.take(1) =~= first);
            lemma_stopped(before, first, rec@, e, steps);
        }
        return Err(e);
    }
    proof {
        lemma_ok(r);
    }
    let ghost mid = rec@;
    let meta: SceneMeta = scene_meta(world_frame, has_pose);
    let mut buf: Vec<u8> = Vec::new();
    meta.encode(&mut buf);
    assert(buf@ =~= SceneMeta::encoded(meta@));
    let r: Result<(), Error> = rec.write("scene", Timestamp(0), buf.as_slice());
    proof {
        lemma_one_more(before, first, mid, steps[1], rec@, r);
        assert(first.push(steps[1]) =~= steps);
    }
    r
}

/// What beginning a recording does to a writing end.
pub open spec fn started<W: StorageWriter>(
    writer: W,
    has_pose: bool,
    after: RecorderView<W>,
    r: Result<(), Error>,
) -> bool {
    steps_done(new_recorder(writer), first_steps(has_pose), after, r)
}

/// Whether a recording can begin with the error `e`.
pub open spec fn failed_start<W: StorageWriter>(writer: W, has_pose: bool, e: Error) -> bool {
    exists|after: RecorderView<W>| #[trigger]
        started(writer, has_pose, after, Err::<(), Error>(e))
}

/// Begins a recording of sensor data: adds all channels, with one for poses where `has_pose` is
/// set, and says what they are for.
pub fn start_recording<W: StorageWriter>(writer: W, has_pose: bool) -> (r: Result<
    Recorder<W>,
    Error,
>)
    ensures
        match r {
            Ok(rec) => started(writer, has_pose, rec@, Ok::<(), Error>(())),
            Err(e) => failed_start(writer, has_pose, e),
        },
{
    let mut rec: Recorder<W> = Recorder::new(writer);
    let ghost before = rec@;
    let ghost all = first_steps(has_pose);
    let ghost one = seq![all[0]];
    let r: Result<(), Error> = open_channel::<Imu, W>(&mut rec, "imu");
    if let Err(e) = r {
        proof {
            assert(all.take(1) =~= one);
            lemma_stopped(before, one, rec@, e, all);
            assert(started(writer, has_pose, rec@, Err::<(), Error>(e)));
        }
        return Err(e);
    }
    proof {
        lemma_ok(r);
    }
    let ghost mid = rec@;
    let r: Result<(), Error> = open_channel::<PointCloud, W>(&mut rec, "lidar");
    let ghost two = one + seq![all[1]];
    proof {
        lemma_then(before, one, mid, seq![all[1]], rec@, r);
    }
    if let Err(e) = r {
        proof {
            assert(all.take(2) =~= two);
            lemma_stopped(before, two, rec@, e, all);
            assert(started(writer, has_pose, rec@, Err::<(), Error>(e)));
        }
        return Err(e);
    }
    proof {
        lemma_ok(r);
    }
    let ghost mut done = two;
    if has_pose {
        let ghost mid = rec@;
        let r: Result<(), Error> = open_channel::<PoseStamped, W>(&mut rec, "pose");
        let ghost three = two + seq![all[2]];
        proof {
            lemma_then(before, two, mid, seq![all[2]], rec@, r);
            done = three;
        }
        if let Err(e) = r {
            proof {
                assert(all.take(3) =~= three);
                lemma_stopped(before, three, rec@, e, all);
                assert(started(writer, has_pose, rec@, Err::<(), Error>(e)));
            }
            return Err(e);
        }
        proof {
            lemma_ok(r);
        }
    }
    let ghost mid = rec@;
    let r: Result<(), Error> = write_scene(&mut rec, "map", has_pose);
    proof {
        lemma_then(before, done, mid, scene_steps("map"@, has_pose), rec@, r);
        assert(done + scene_steps("map"@, has_pose) =~= all);
    }
    match r {
        Err(e) => {
            assert(started(writer, has_pose, rec@, Err::<(), Error>(e)));
            Err(e)
        },
        Ok(_) => {
            proof {
                lemma_ok(r);
            }
            Ok(rec)
        },
    }
}

/// Records sensor data under the time `at`.
pub fn record_sample<W: StorageWriter>(
    rec: &mut Recorder<W>,
    data: &SensorData,
    at: Timestamp,
) -> (r: Result<(), Error>)
    ensures
        record::message_written(
            old(rec)@,
            conv::recorded_as(data@).0,
            at,
            conv::recorded_as(data@).2,
            final(rec)@,
            r,
        ),
{
    let (channel, _stamp, buf) = encode(data);
    rec.write(channel, at, buf.as_slice())
}

/// A pose that mapping found; each number as its 64-bit pattern.
#[derive(Clone, Copy, Debug)]
pub struct PoseRow {
    /// When it was, in seconds.
    pub time: u64,
    /// The same in seconds and nanoseconds.
    pub stamp: Time,
    /// The same in nanoseconds.
    pub at: Timestamp,
    pub position: [u64; 3],
    /// w, x, y, z
    pub orientation: [u64; 4],
}

/// The message of a pose.
pub open spec fn pose_message(p: PoseRow) -> PoseView {
    PoseView {
        header: HeaderView { stamp: p.stamp, frame_id: "map"@ },
        position: p.position@,
        orientation: p.orientation@,
    }
}

/// Records sensor data together with the poses that mapping finds from it.
pub struct LioRecorder<W: StorageWriter> {
    rec: Recorder<W>,
    poses: Vec<PoseRow>,
}

/// The state of a [`LioRecorder`].
pub struct LioView<W> {
    pub rec: RecorderView<W>,
    pub poses: Seq<PoseRow>,
}

impl<W: StorageWriter> View for LioRecorder<W> {
    type V = LioView<W>;

    closed spec fn view(&self) -> LioView<W> {
        LioView { rec: self.rec@, poses: self.poses@ }
    }
}

impl<W: StorageWriter> LioRecorder<W> {
    /// Begins a recording with a channel for poses.
    pub fn new(writer: W) -> (r: Result<Self, Error>)
        ensures
            match r {
                Ok(lio) => lio@.poses.len() == 0 && steps_done(
                    new_recorder(writer),
                    first_steps(true),
                    lio@.rec,
                    Ok::<(), Error>(()),
                ),
                Err(e) => failed_start(writer, true, e),
            },
    {
        let rec: Recorder<W> = start_recording(writer, true)?;
        Ok(LioRecorder { rec, poses: Vec::new() })
    }

    /// Records sensor data under the time `at`.
    pub fn push(&mut self, data: &SensorData, at: Timestamp) -> (r: Result<(), Error>)
        ensures
            final(self)@.poses == old(self)@.poses,
            record::message_written(
                old(self)@.rec,
                conv::recorded_as(data@).0,
                at,
                conv::recorded_as(data@).2,
                final(self)@.rec,
                r,
            ),
    {
        record_sample(&mut self.rec, data, at)
    }

    /// Records a pose, and keeps it.
    pub fn write_pose(&mut self, p: PoseRow) -> (r: Result<(), Error>)
        ensures
            record::message_written(
                old(self)@.rec,
                "pose"@,
                p.at,
                PoseStamped::encoded(pose_message(p)),
                final(self)@.rec,
                r,
            ),
            final(self)@.poses == (if r is Ok {
                old(self)@.poses.push(p)
            } else {
                old(self)@.poses
            }),
    {
        let msg: PoseStamped = PoseStamped {
            header: Header { stamp: p.stamp, frame_id: text_of("map") },
            position: p.position,
            orientation: p.orientation,
        };
        let mut buf: Vec<u8> = Vec::new();
        msg.encode(&mut buf);
        assert(buf@ =~= PoseStamped::encoded(pose_message(p)));
        self.rec.write("pose", p.at, buf.as_slice())?;
        self.poses.push(p);
        Ok(())
    }

    /// Brings the recording to its end.
    pub fn finish(&mut self) -> (r: Result<(), Error>)
        ensures
            final(self)@.poses == old(self)@.poses,
            final(self)@.rec.schemas == old(self)@.rec.schemas,
            final(self)@.rec.channels == old(self)@.rec.channels,
            W::closed(old(self)@.rec.writer, final(self)@.rec.writer, r),
    {
        self.rec.finish()
    }

    /// The poses that were recorded.
    pub fn poses(&self) -> (r: &[PoseRow])
        ensures
            r@ == self@.poses,
    {
        self.poses.as_slice()
    }

    /// The writing end, to take from it what it has ready.
    pub fn writer_mut(&mut self) -> (w: &mut W)
        ensures
            *w == old(self)@.rec.writer,
            final(self)@ == (LioView {
                rec: RecorderView { writer: *final(w), ..old(self)@.rec },
                poses: old(self)@.poses,
            }),
    {
        self.rec.writer_mut()
    }

    /// Gives up the recorder for its writing end.
    pub fn into_writer(self) -> (w: W)
        ensures
            w == self@.rec.writer,
    {
        self.rec.into_writer()
    }
}

/// The last one of steps that all succeeded.
proof fn lemma_last_step<W: StorageWriter>(
    before: RecorderView<W>,
    steps: Seq<Step>,
    step: Step,
    after: RecorderView<W>,
) -> (mid: RecorderView<W>)
    requires
        steps_done(before, steps.push(step), after, Ok::<(), Error>(())),
    ensures
        steps_done(before, steps, mid, Ok::<(), Error>(())),
        step_done(mid, step, after, Ok::<(), Error>(())),
{
    let all = steps.push(step);
    assert(all.drop_last() =~= steps);
    let r = Ok::<(), Error>(());
    let (m, s) = choose|m: RecorderView<W>, s: Result<(), Error>|
        steps_done(before, all.drop_last(), m, s) && #[trigger] followed(
            m,
            s,
            all.last(),
            after,
            r,
        );
    lemma_ok(s);
    m
}

/// What adding a channel of a new name and a new schema does to a container file.
proof fn lemma_new_channel(
    before: RecorderView<SingleFileWriter>,
    name: Seq<char>,
    schema: SchemaView,
    after: RecorderView<SingleFileWriter>,
)
    requires
        channel_step_done(before, name, schema, after, Ok::<(), Error>(())),
        record::kept_under(before.schemas, record::key_of(schema)) is None,
        record::kept_under(before.channels, name) is None,
    ensures
        ({
            let (w, sid) = before.writer@.after_add_schema(schema);
            let (v, cid) = w.after_add_channel(name, sid);
            &&& after.writer@ == v
            &&& after.schemas == before.schemas.push((record::key_of(schema), SchemaId(sid)))
            &&& after.channels == before.channels.push((name, ChannelId(cid)))
        }),
{
    let r = Ok::<(), Error>(());
    let id = choose|id: Result<ChannelId, Error>| #[trigger]
        record::added(before, name, schema, after, id) && (match id {
            Ok(_) => r is Ok,
            Err(e) => r == Err::<(), Error>(e),
        });
    let (mid, s) = choose|mid: RecorderView<SingleFileWriter>, s: Result<SchemaId, Error>|
        #[trigger]
        record::registered(before, schema, mid, s) && match s {
            Err(e) => after == mid && id == Err::<ChannelId, Error>(e),
            Ok(schema_id) => record::declared(mid, name, schema_id, after, id),
        };
}

/// The channels that a recording of sensor data declares.
pub open spec fn first_channels(has_pose: bool) -> Seq<ChannelView> {
    let sensors = seq![
        ChannelView { id: 1, name: "imu"@, schema_id: 1 },
        ChannelView { id: 2, name: "lidar"@, schema_id: 2 },
    ];
    if has_pose {
        sensors.push(ChannelView { id: 3, name: "pose"@, schema_id: 3 }).push(
            ChannelView { id: 4, name: "scene"@, schema_id: 4 },
        )
    } else {
        sensors.push(ChannelView { id: 3, name: "scene"@, schema_id: 3 })
    }
}

/// The schemas that a recording of sensor data declares.
pub open spec fn first_schemas(has_pose: bool) -> Seq<SchemaView> {
    let sensors = seq![
        SchemaView { id: 1, ..schema_for::<Imu>() },
        SchemaView { id: 2, ..schema_for::<PointCloud>() },
    ];
    if has_pose {
        sensors.push(SchemaView { id: 3, ..schema_for::<PoseStamped>() }).push(
            SchemaView { id: 4, ..schema_for::<SceneMeta>() },
        )
    } else {
        sensors.push(SchemaView { id: 3, ..schema_for::<SceneMeta>() })
    }
}

/// Everything that the steps say of names is about different names.
pub proof fn lemma_names_differ()
    ensures
        "imu"@ != "lidar"@,
        "imu"@ != "pose"@,
        "imu"@ != "scene"@,
        "lidar"@ != "pose"@,
        "lidar"@ != "scene"@,
        "pose"@ != "scene"@,
{
    reveal_strlit("imu");
    reveal_strlit("lidar");
    reveal_strlit("pose");
    reveal_strlit("scene");
    assert("imu"@.len() == 3 && "lidar"@.len() == 5 && "pose"@.len() == 4 && "scene"@.len() == 5);
    assert("lidar"@[0] != "scene"@[0]);
}

pub proof fn lemma_types_differ()
    ensures
        schema_for::<Imu>().typename.len() == 11,
        schema_for::<PointCloud>().typename.len() == 18,
        schema_for::<PoseStamped>().typename.len() == 19,
        schema_for::<SceneMeta>().typename.len() == 17,
{
    codec::lemma_names();
    reveal_strlit("doracap/Imu");
    reveal_strlit("doracap/PointCloud");
    reveal_strlit("doracap/PoseStamped");
    reveal_strlit("doracap/SceneMeta");
}

/// Whether `rec` and its container file know these schemas and channels and nothing else, and the
/// file is otherwise as in `w`.
pub open spec fn knows(
    rec: RecorderView<SingleFileWriter>,
    schemas: Seq<SchemaView>,
    channels: Seq<ChannelView>,
    w: WriterView,
) -> bool {
    &&& rec.writer@ == (WriterView { schemas, channels, ..w })
    &&& rec.schemas == Seq::new(
        schemas.len(),
        |i: int| (record::key_of(schemas[i]), SchemaId(schemas[i].id)),
    )
    &&& rec.channels == Seq::new(
        channels.len(),
        |i: int| (channels[i].name, ChannelId(channels[i].id)),
    )
}

proof fn lemma_not_kept<K, T>(s: Seq<(K, T)>, key: K)
    requires
        forall|i: int| 0 <= i < s.len() ==> (#[trigger] s[i]).0 != key,
    ensures
        record::kept_under(s, key) is None,
    decreases s.len(),
{
    if s.len() > 0 {
        assert(s[s.len() - 1].0 != key);
        lemma_not_kept(s.drop_last(), key);
    }
}

proof fn lemma_no_schema_like(s: Seq<SchemaView>, schema: SchemaView)
    requires
        forall|i: int| 0 <= i < s.len() ==> (#[trigger] s[i]).typename != schema.typename,
    ensures
        writer::schema_like(s, schema.typename, schema.encoding) is None,
    decreases s.len(),
{
    if s.len() > 0 {
        assert(s[s.len() - 1].typename != schema.typename);
        lemma_no_schema_like(s.drop_last(), schema);
    }
}

proof fn lemma_no_channel_named(s: Seq<ChannelView>, name: Seq<char>)
    requires
        forall|i: int| 0 <= i < s.len() ==> (#[trigger] s[i]).name != name,
    ensures
        writer::channel_named(s, name) is None,
    decreases s.len(),
{
    if s.len() > 0 {
        assert(s[s.len() - 1].name != name);
        lemma_no_channel_named(s.drop_last(), name);
    }
}

/// A channel of a new name and a new type gets the next ids.
pub proof fn lemma_declare(
    before: RecorderView<SingleFileWriter>,
    name: Seq<char>,
    schema: SchemaView,
    after: RecorderView<SingleFileWriter>,
    schemas: Seq<SchemaView>,
    channels: Seq<ChannelView>,
    w: WriterView,
)
    requires
        knows(before, schemas, channels, w),
        channel_step_done(before, name, schema, after, Ok::<(), Error>(())),
        schemas.len() == channels.len() < 0xffff,
        forall|i: int|
            0 <= i < schemas.len() ==> (#[trigger] schemas[i]).typename.len()
                != schema.typename.len() && schemas[i].encoding == schema.encoding,
        forall|i: int| 0 <= i < channels.len() ==> (#[trigger] channels[i]).name != name,
    ensures
        ({
            let id = (schemas.len() + 1) as u16;
            knows(
                after,
                schemas.push(SchemaView { id, ..schema }),
                channels.push(ChannelView { id, name, schema_id: id }),
                w,
            )
        }),
{
    let key = record::key_of(schema);
    assert forall|i: int| 0 <= i < before.schemas.len() implies (#[trigger] before.schemas[i]).0
        != key by {
        assert(schemas[i].typename.len() != schema.typename.len());
    }
    lemma_not_kept(before.schemas, key);
    assert forall|i: int| 0 <= i < before.channels.len() implies (#[trigger] before.channels[i]).0
        != name by {
        assert(channels[i].name != name);
    }
    lemma_not_kept(before.channels, name);
    lemma_no_schema_like(schemas, schema);
    lemma_no_channel_named(channels, name);
    lemma_new_channel(before, name, schema, after);
    let id = (schemas.len() + 1) as u16;
    let s2 = schemas.push(SchemaView { id, ..schema });
    let c2 = channels.push(ChannelView { id, name, schema_id: id });
    assert(record::key_of(SchemaView { id, ..schema }) == key);
    assert(after.schemas =~= Seq::new(
        s2.len(),
        |i: int| (record::key_of(s2[i]), SchemaId(s2[i].id)),
    ));
    assert(after.channels =~= Seq::new(c2.len(), |i: int| (c2[i].name, ChannelId(c2[i].id))));
}

pub proof fn lemma_nothing_known(file: SingleFileWriter)
    requires
        file@.schemas.len() == 0,
        file@.channels.len() == 0,
    ensures
        knows(new_recorder(file), Seq::empty(), Seq::empty(), file@),
{
    let rec = new_recorder(file);
    let s = Seq::<SchemaView>::empty();
    let c = Seq::<ChannelView>::empty();
    assert(file@.schemas =~= s);
    assert(file@.channels =~= c);
    assert(rec.schemas =~= Seq::new(
        s.len(),
        |i: int| (record::key_of(s[i]), SchemaId(s[i].id)),
    ));
    assert(rec.channels =~= Seq::new(c.len(), |i: int| (c[i].name, ChannelId(c[i].id))));
}

/// The steps that declare the sensors.
spec fn sensor_steps() -> Seq<Step> {
    Seq::empty().push(Step::Channel("imu"@, schema_for::<Imu>())).push(
        Step::Channel("lidar"@, schema_for::<PointCloud>()),
    )
}

spec fn sensor_schemas() -> Seq<SchemaView> {
    Seq::empty().push(SchemaView { id: 1, ..schema_for::<Imu>() }).push(
        SchemaView { id: 2, ..schema_for::<PointCloud>() },
    )
}

spec fn sensor_channels() -> Seq<ChannelView> {
    Seq::empty().push(ChannelView { id: 1, name: "imu"@, schema_id: 1 }).push(
        ChannelView { id: 2, name: "lidar"@, schema_id: 2 },
    )
}

proof fn lemma_sensors_declared(file: SingleFileWriter, after: RecorderView<SingleFileWriter>)
    requires
        file@.schemas.len() == 0,
        file@.channels.len() == 0,
        steps_done(new_recorder(file), sensor_steps(), after, Ok::<(), Error>(())),
    ensures
        knows(after, sensor_schemas(), sensor_channels(), file@),
{
    let start = new_recorder(file);
    let imu = Step::Channel("imu"@, schema_for::<Imu>());
    let lidar = Step::Channel("lidar"@, schema_for::<PointCloud>());
    let s1 = Seq::<Step>::empty().push(imu);
    let m1 = lemma_last_step(start, s1, lidar, after);
    let m0 = lemma_last_step(start, Seq::<Step>::empty(), imu, m1);
    lemma_names_differ();
    lemma_types_differ();
    lemma_nothing_known(file);
    assert(m0 == start);
    lemma_declare(m0, "imu"@, schema_for::<Imu>(), m1, Seq::empty(), Seq::empty(), file@);
    let a = Seq::empty().push(SchemaView { id: 1, ..schema_for::<Imu>() });
    let b = Seq::empty().push(ChannelView { id: 1, name: "imu"@, schema_id: 1 });
    lemma_declare(m1, "lidar"@, schema_for::<PointCloud>(), after, a, b, file@);
}

/// The channel steps of a recording of sensor data, on a new container file.
#[verifier::rlimit(40)]
proof fn lemma_channels_declared(
    file: SingleFileWriter,
    has_pose: bool,
    after: RecorderView<SingleFileWriter>,
)
    requires
        file@.schemas.len() == 0,
        file@.channels.len() == 0,
        steps_done(
            new_recorder(file),
            first_steps(has_pose).drop_last(),
            after,
            Ok::<(), Error>(()),
        ),
    ensures
        knows(after, first_schemas(has_pose), first_channels(has_pose), file@),
{
    let all = first_steps(has_pose);
    let start = new_recorder(file);
    let pose = Step::Channel("pose"@, schema_for::<PoseStamped>());
    let scene = Step::Channel("scene"@, schema_for::<SceneMeta>());
    let a = sensor_schemas();
    let b = sensor_channels();
    lemma_names_differ();
    lemma_types_differ();
    if has_pose {
        assert(all.drop_last() =~= sensor_steps().push(pose).push(scene));
        let m3 = lemma_last_step(start, sensor_steps().push(pose), scene, after);
        let m2 = lemma_last_step(start, sensor_steps(), pose, m3);
        lemma_sensors_declared(file, m2);
        lemma_declare(m2, "pose"@, schema_for::<PoseStamped>(), m3, a, b, file@);
        let c = a.push(SchemaView { id: 3, ..schema_for::<PoseStamped>() });
        let d = b.push(ChannelView { id: 3, name: "pose"@, schema_id: 3 });
        lemma_declare(m3, "scene"@, schema_for::<SceneMeta>(), after, c, d, file@);
        assert(c.push(SchemaView { id: 4, ..schema_for::<SceneMeta>() }) =~= first_schemas(true));
        assert(d.push(ChannelView { id: 4, name: "scene"@, schema_id: 4 }) =~= first_channels(
            true,
        ));
    } else {
        assert(all.drop_last() =~= sensor_steps().push(scene));
        let m2 = lemma_last_step(start, sensor_steps(), scene, after);
        lemma_sensors_declared(file, m2);
        lemma_declare(m2, "scene"@, schema_for::<SceneMeta>(), after, a, b, file@);
        assert(a.push(SchemaView { id: 3, ..schema_for::<SceneMeta>() }) =~= first_schemas(false));
        assert(b.push(ChannelView { id: 3, name: "scene"@, schema_id: 3 }) =~= first_channels(
            false,
        ));
    }
}

/// A recording of sensor data into a new container file declares all its channels in the head of
/// the file, and what they are for is the first message, at the time zero.
pub proof fn law_recording_declares_its_channels_first(
    file: SingleFileWriter,
    has_pose: bool,
    after: RecorderView<SingleFileWriter>,
)
    requires
        file@.schemas.len() == 0,
        file@.channels.len() == 0,
        file@.recorded().len() == 0,
        !file@.header_written,
        steps_done(new_recorder(file), first_steps(has_pose), after, Ok::<(), Error>(())),
    ensures
        after.writer@.head_schemas == first_schemas(has_pose),
        after.writer@.head_channels == first_channels(has_pose),
        after.writer@.recorded() == seq![
            RecordView {
                channel: first_channels(has_pose).last().id,
                stamp: 0,
                payload: SceneMeta::encoded(scene_view("map"@, has_pose)),
            },
        ],
{
    let all = first_steps(has_pose);
    assert(all.drop_last().push(all.last()) =~= all);
    let mid = lemma_last_step(new_recorder(file), all.drop_last(), all.last(), after);
    lemma_channels_declared(file, has_pose, mid);
    let channels = first_channels(has_pose);
    let id = channels.last().id;
    let r = RecordView {
        channel: id,
        stamp: 0,
        payload: SceneMeta::encoded(scene_view("map"@, has_pose)),
    };
    assert(mid.channels.last() == ("scene"@, ChannelId(id)));
    let w = mid.writer@;
    assert(after.writer@ == w.after_write(r).0);
    assert(w.pending.push(r) =~= seq![r]);
    laws::law_writing_in_order_appends(w, r);
    assert(w.recorded().push(r) =~= seq![r]);
}

/// What is recorded of a pose, decoded, is that pose: its time, its position and its orientation,
/// number by number, in the frame of the map.
pub proof fn law_recorded_pose_decodes(p: PoseRow)
    ensures
        PoseStamped::decoded(PoseStamped::encoded(pose_message(p))) matches Ok(m) && {
            &&& m.header.stamp == p.stamp
            &&& m.header.frame_id == "map"@
            &&& m.position.len() == 3
            &&& m.position[0] == p.position@[0]
            &&& m.position[1] == p.position@[1]
            &&& m.position[2] == p.position@[2]
            &&& m.orientation.len() == 4
            &&& m.orientation[0] == p.orientation@[0]
            &&& m.orientation[1] == p.orientation@[1]
            &&& m.orientation[2] == p.orientation@[2]
            &&& m.orientation[3] == p.orientation@[3]
        },
{
    reveal_strlit("map");
    conv::lemma_short_text_fits("map"@);
    PoseStamped::law_decodes_to_itself(pose_message(p));
}

/// The scene of a mapping run names the world frame, and as many channels as there are sensors and
/// poses: each under its own name and role, the poses in the world frame.
pub proof fn law_scene_names_the_channels(world_frame: Seq<char>, has_pose: bool)
    ensures
        ({
            let v = scene_view(world_frame, has_pose);
            &&& v.world_frame == world_frame
            &&& v.channels.len() == (if has_pose {
                3int
            } else {
                2
            })
            &&& v.channels[0].name == "imu"@
            &&& v.channels[0].role == "imu"@
            &&& v.channels[0].frame_id == "imu"@
            &&& v.channels[1].name == "lidar"@
            &&& v.channels[1].role == "lidar"@
            &&& v.channels[1].frame_id == "lidar"@
            &&& has_pose ==> v.channels[2].name == "pose"@ && v.channels[2].role == "pose"@
                && v.channels[2].frame_id == world_frame
        }),
{
}

/// The scene that a recording of sensor data begins with decodes to that scene.
pub proof fn law_recorded_scene_decodes(has_pose: bool)
    ensures
        SceneMeta::decoded(SceneMeta::encoded(scene_view("map"@, has_pose))) == Ok::<
            SceneView,
            Seq<char>,
        >(scene_view("map"@, has_pose)),
{
    reveal_strlit("map");
    reveal_strlit("imu");
    reveal_strlit("lidar");
    reveal_strlit("pose");
    conv::lemma_short_text_fits("map"@);
    conv::lemma_short_text_fits("imu"@);
    conv::lemma_short_text_fits("lidar"@);
    conv::lemma_short_text_fits("pose"@);
    SceneMeta::law_decodes_to_itself(scene_view("map"@, has_pose));
}

/// The name, and the type of the messages, of the channel on which a recording of sensor data
/// holds a message.
pub open spec fn channel_type(name: Seq<char>) -> Seq<char> {
    if name == "imu"@ {
        "doracap/Imu"@
    } else if name == "lidar"@ {
        "doracap/PointCloud"@
    } else if name == "pose"@ {
        "doracap/PoseStamped"@
    } else {
        "doracap/SceneMeta"@
    }
}

/// A recording of sensor data that has begun resolves the messages of each of its channels to the
/// name of that channel and to the type that belongs to it, in the compact encoding.
pub proof fn law_channels_of_a_recording_resolve(
    has_pose: bool,
    name: Seq<char>,
    stamp: u64,
    payload: Seq<u8>,
)
    requires
        name == "imu"@ || name == "lidar"@ || name == "scene"@ || (has_pose && name == "pose"@),
    ensures
        exists|id: u16|
            {
                let m = #[trigger] layout::resolved(
                    first_schemas(has_pose),
                    first_channels(has_pose),
                    RecordView { channel: id, stamp, payload },
                );
                &&& record::kept_under(
                    Seq::new(
                        first_channels(has_pose).len(),
                        |i: int|
                            (
                                first_channels(has_pose)[i].name,
                                ChannelId(first_channels(has_pose)[i].id),
                            ),
                    ),
                    name,
                ) == Some(ChannelId(id))
                &&& m.channel == name
                &&& m.stamp == stamp
                &&& m.payload == payload
                &&& m.schema.typename == channel_type(name)
                &&& m.schema.encoding == "rbag1"@
            },
{
    let cs = first_channels(has_pose);
    let ss = first_schemas(has_pose);
    lemma_names_differ();
    codec::lemma_names();
    let i: int = if name == "imu"@ {
        0
    } else if name == "lidar"@ {
        1
    } else if name == "pose"@ {
        2
    } else {
        cs.len() - 1
    };
    let kept = Seq::new(cs.len(), |i: int| (cs[i].name, ChannelId(cs[i].id)));
    lemma_kept(kept, i);
    laws::lemma_channel_found(cs, i);
    laws::lemma_schema_found(ss, i);
    let r = RecordView { channel: cs[i].id, stamp, payload };
    assert(layout::resolved(ss, cs, r).channel == name);
}

proof fn lemma_kept<K, T>(s: Seq<(K, T)>, i: int)
    requires
        0 <= i < s.len(),
        forall|k: int| i < k < s.len() ==> (#[trigger] s[k]).0 != s[i].0,
    ensures
        record::kept_under(s, s[i].0) == Some(s[i].1),
    decreases s.len(),
{
    if i < s.len() - 1 {
        assert(s[s.len() - 1].0 != s[i].0);
        lemma_kept(s.drop_last(), i);
    }
}

/// Steps are done one after the other: where one fails, what comes behind it is not done, and its
/// error is that of all; where it succeeds, the next one goes on from there.
pub proof fn law_steps_stop_at_the_first_failure<W: StorageWriter>(
    before: RecorderView<W>,
    steps: Seq<Step>,
    step: Step,
    after: RecorderView<W>,
    r: Result<(), Error>,
)
    requires
        steps_done(before, steps.push(step), after, r),
    ensures
        (steps_done(before, steps, after, r) && r is Err) || exists|mid: RecorderView<W>|
            #![trigger steps_done(before, steps, mid, Ok::<(), Error>(()))]
            steps_done(before, steps, mid, Ok::<(), Error>(())) && match step {
                Step::Channel(name, schema) => channel_step_done(mid, name, schema, after, r),
                Step::Write(channel, stamp, payload) => record::message_written(
                    mid,
                    channel,
                    stamp,
                    payload,
                    after,
                    r,
                ),
            },
{
    let all = steps.push(step);
    assert(all.drop_last() =~= steps);
    let (mid, s) = choose|m: RecorderView<W>, s: Result<(), Error>|
        steps_done(before, all.drop_last(), m, s) && #[trigger] followed(
            m,
            s,
            all.last(),
            after,
            r,
        );
    if s is Ok {
        lemma_ok(s);
        assert(step_done(mid, step, after, r));
    }
}

} // verus!
