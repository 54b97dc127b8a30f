use doracap::fastlio::conv::{ImuRaw, SensorData, StandardMsg, StdPointMsg};
use doracap::fastlio::lio::{record_sample, scene_meta, start_recording, LioRecorder, PoseRow};
use doracap::message::Timestamp;
use doracap::msgs::codec::Codec;
use doracap::msgs::types::{PoseStamped, SceneMeta, Time};
use doracap::singlefile::reader::SingleFileReader;
use doracap::singlefile::writer::SingleFileWriter;
use doracap::storage::StorageReader;

fn time(ns: u64) -> Time {
    Time { sec: (ns / 1_000_000_000) as i64, nsec: (ns % 1_000_000_000) as u32 }
}

fn imu(ns: u64) -> SensorData {
    SensorData::Imu(ImuRaw { stamp: time(ns), acc: [0; 3], gyr: [0; 3] })
}

fn scan(ns: u64) -> SensorData {
    let p = StdPointMsg { x: 1, y: 2, z: 3, intensity: 4, time: 5, ring: 6 };
    SensorData::LidarStandard(StandardMsg { stamp: time(ns), points: vec![p; 200] })
}

fn pose(ns: u64) -> PoseRow {
    PoseRow {
        time: (ns as f64 / 1e9).to_bits(),
        stamp: time(ns),
        at: Timestamp(ns),
        position: [7, 8, 9],
        orientation: [1.0f64.to_bits(), 0, 0, 0],
    }
}

#[test]
fn a_mapping_run_records_sensors_poses_and_scene() {
    let mut rec = LioRecorder::new(SingleFileWriter::open()).unwrap();
    for i in 1..4u64 {
        rec.push(&imu(i * 100), Timestamp(i * 100)).unwrap();
        rec.push(&scan(i * 100), Timestamp(i * 100)).unwrap();
        rec.write_pose(pose(i * 100 + 1)).unwrap();
    }
    rec.finish().unwrap();
    assert_eq!(rec.poses().len(), 3);
    assert_eq!(rec.poses()[1].position, [7, 8, 9]);

    let bytes = rec.into_writer().take_output();
    let mut reader = SingleFileReader::open(bytes).unwrap();
    let names: Vec<String> = reader.channels().iter().map(|c| c.name.clone()).collect();
    assert_eq!(names, vec!["imu", "lidar", "pose", "scene"]);
    let msgs = reader.read_all().unwrap();
    let count = |ch: &str| msgs.iter().filter(|m| m.channel == ch).count();
    assert_eq!((count("imu"), count("lidar"), count("pose"), count("scene")), (3, 3, 3, 1));
    assert_eq!((msgs[0].channel.as_str(), msgs[0].stamp.0), ("scene", 0));
    let meta = SceneMeta::decode(&msgs[0].payload).unwrap();
    assert_eq!(meta.world_frame, "map");
    assert!(meta.channels.iter().any(|c| c.role == "pose" && c.frame_id == "map"));
    let p = msgs.iter().find(|m| m.channel == "pose").unwrap();
    let p = PoseStamped::decode(&p.payload).unwrap();
    assert_eq!(p.header.frame_id, "map");
    assert_eq!(p.header.stamp, time(101));
    assert_eq!(p.orientation[0], 1.0f64.to_bits());
}

#[test]
fn a_recording_without_poses_has_no_pose_channel() {
    let mut rec = start_recording(SingleFileWriter::open(), false).unwrap();
    record_sample(&mut rec, &imu(5), Timestamp(5)).unwrap();
    rec.finish().unwrap();
    let mut reader = SingleFileReader::open(rec.into_writer().take_output()).unwrap();
    let names: Vec<String> = reader.channels().iter().map(|c| c.name.clone()).collect();
    assert_eq!(names, vec!["imu", "lidar", "scene"]);
    let types: Vec<String> = reader.schemas().iter().map(|s| s.typename.clone()).collect();
    assert_eq!(types, vec!["doracap/Imu", "doracap/PointCloud", "doracap/SceneMeta"]);
    let msgs = reader.read_all().unwrap();
    assert_eq!(msgs.len(), 2);
    let meta = SceneMeta::decode(&msgs[0].payload).unwrap();
    assert_eq!(meta, scene_meta("map", false));
    assert_eq!(meta.channels.len(), 2);
}

#[test]
fn a_recording_that_cannot_be_packed_does_not_begin() {
    let w = SingleFileWriter::open().compressor(1).chunk_target(1);
    assert_eq!(
        start_recording(w, true).err().unwrap().0,
        "zstd compression not built in (reserved)"
    );
}
