use gaia_gmn::config::{parse_conf, resolve_setting, Config, ConfMap};

#[test]
fn test_parse_conf() {
    let text = "# comment\nSTATION_ID=US0001\nWIDTH = 1920\nFPS=25.0\n";
    let map = parse_conf(text);
    assert_eq!(map.get("STATION_ID").unwrap(), "US0001");
    assert_eq!(map.get("WIDTH").unwrap(), "1920");
    assert_eq!(map.get("FPS").unwrap(), "25.0");
}

#[test]
fn conf_comments_blank_lines_and_unknown_shapes_are_ignored() {
    let text = "; semicolon comment\n   # indented comment\n\nNO_EQUALS_SIGN\nKEY=value\n";
    let map = parse_conf(text);
    assert!(map.get("; semicolon comment").is_none());
    assert!(map.get("NO_EQUALS_SIGN").is_none());
    assert!(map.get("# indented comment").is_none());
    assert_eq!(map.get("KEY").unwrap(), "value");
}

#[test]
fn conf_later_line_overrides_earlier() {
    let map = parse_conf("A=1\nB=2\nA=3");
    assert_eq!(map.get("A").unwrap(), "3");
    assert_eq!(map.get("B").unwrap(), "2");
}

#[test]
fn conf_quotes_whitespace_and_crlf() {
    let map = parse_conf("  NAME =  \"My Station\"  \r\nPATH=\"\"/data\"\"\r\nEMPTY=\nEQ=a=b\n");
    assert_eq!(map.get("NAME").unwrap(), "My Station");
    assert_eq!(map.get("PATH").unwrap(), "/data");
    assert_eq!(map.get("EMPTY").unwrap(), "");
    assert_eq!(map.get("EQ").unwrap(), "a=b");
}

#[test]
fn conf_missing_key_and_empty_text() {
    let map = parse_conf("");
    assert!(map.get("ANY").is_none());
    let map = parse_conf("X=1");
    assert!(map.get("Y").is_none());
}

#[test]
fn conf_unicode_whitespace_is_trimmed() {
    let map = parse_conf("\u{3000}KEY\u{a0}=\u{2003}v\u{2003}\n");
    assert_eq!(map.get("KEY").unwrap(), "v");
}

fn env_map(pairs: &[(&str, &str)]) -> ConfMap {
    let mut m = ConfMap::new();
    for (k, v) in pairs {
        m.insert(k.to_string(), v.to_string());
    }
    m
}

#[test]
fn environment_overrides_file_unless_empty() {
    let file = parse_conf("VIDEO_DEVICE=/dev/video1\nWIDTH=640\n");
    let env = env_map(&[("VIDEO_DEVICE", "rtsp://cam"), ("WIDTH", "")]);
    assert_eq!(resolve_setting(&env, &file, "VIDEO_DEVICE").unwrap(), "rtsp://cam");
    assert_eq!(resolve_setting(&env, &file, "WIDTH").unwrap(), "640");
    assert!(resolve_setting(&env, &file, "HEIGHT").is_none());
}

#[test]
fn config_defaults_and_parsing() {
    let file = parse_conf("STATION_ID=\"US0002\"\nWIDTH=1920\nHEIGHT=abc\nFF_NFRAMES=+128\nDEINTERLACE_ORDER=-0\n");
    let env = env_map(&[("DATA_DIR", "/srv/gmn/")]);
    let c = Config::from_settings(&file, &env);
    assert_eq!(c.station_id, "US0002");
    assert_eq!(c.video_device, "/dev/video0");
    assert_eq!(c.width, 1920);
    assert_eq!(c.height, 720);
    assert_eq!(c.ff_nframes, 128);
    assert_eq!(c.deinterlace_order, 0);
    assert_eq!(c.data_dir, "/srv/gmn/");
    assert_eq!(c.listen_addr, "0.0.0.0:8090");
    assert_eq!(c.captured_dir(), "/srv/gmn/CapturedFiles");
    assert_eq!(c.live_jpg_path(), "/srv/gmn/live.jpg");
    assert_eq!(Config::default_path(), "/etc/gaia/gmn.conf");
}

#[test]
fn config_integer_edges() {
    let file = parse_conf("WIDTH=4294967295\nHEIGHT=4294967296\nDEINTERLACE_ORDER=-2147483648\nFF_NFRAMES=-5\n");
    let c = Config::from_settings(&file, &ConfMap::new());
    assert_eq!(c.width, 4294967295);
    assert_eq!(c.height, 720);
    assert_eq!(c.deinterlace_order, i32::MIN);
    assert_eq!(c.ff_nframes, 256);
    let file = parse_conf("DEINTERLACE_ORDER=2147483648\nWIDTH=+\n");
    let c = Config::from_settings(&file, &ConfMap::new());
    assert_eq!(c.deinterlace_order, -1);
    assert_eq!(c.width, 1280);
}

#[test]
fn captured_dir_joins_like_path_join() {
    let file = parse_conf("DATA_DIR=/data");
    let c = Config::from_settings(&file, &ConfMap::new());
    assert_eq!(c.captured_dir(), std::path::Path::new("/data").join("CapturedFiles").to_str().unwrap());
    let file = parse_conf("DATA_DIR=");
    let c = Config::from_settings(&file, &ConfMap::new());
    assert_eq!(c.captured_dir(), "CapturedFiles");
}

#[test]
fn conf_len_counts_distinct_keys() {
    assert_eq!(parse_conf("").len(), 0);
    assert_eq!(parse_conf("A=1\nB=2\nA=3\n# C=4\nD\n").len(), 2);
    assert_eq!(env_map(&[("X", "1"), ("Y", "2"), ("X", "3")]).len(), 2);
}
