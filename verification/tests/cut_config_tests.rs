use podcasts_remove_ads::config::Config;
use podcasts_remove_ads::cut::{crossfade_filter_graph, truncate_last};

#[test]
fn short_names_are_padded() {
    assert_eq!(truncate_last("abc", 6), "abc   ");
    assert_eq!(truncate_last("abcdef", 6), "abcdef");
    assert_eq!(truncate_last("é", 3), "é  ");
}

#[test]
fn long_names_keep_their_end() {
    assert_eq!(truncate_last("/media/podcasts/show/episode.mp3", 11), "episode.mp3");
    assert_eq!(truncate_last("abc", 0), "");
}

#[test]
fn default_config() {
    let c = Config::default();
    assert!(!c.postproc_enabled);
    assert_eq!(c.postproc_program, "ls");
}

#[test]
fn config_file_text() {
    let c = Config { postproc_enabled: true, postproc_program: "beet import".to_string() };
    let expected = "{\n  \"$schema\": \"https://json.schemastore.org/config\",\n  \"_comment\": \"Configuration for podcasts_remove_ads.\",\n  \"_comment_postproc_enabled\": \"If true, run a post-processing program after each successful cut.\",\n  \"postproc_enabled\": true,\n  \"_comment_postproc_program\": \"Name or path of the post-processing program to run (receives the cut file path as argument).\",\n  \"postproc_program\": \"beet import\"\n}\n";
    assert_eq!(c.file_text(), expected);
    assert!(Config::default().file_text().contains("\"postproc_enabled\": false,"));
}

fn b(s: &str, e: &str) -> (String, String) {
    (s.to_string(), e.to_string())
}

#[test]
fn crossfade_graph_of_two_parts() {
    let g = crossfade_filter_graph(&vec![b("0.000", "12.500"), b("182.800", "2500.000")], "0.030");
    assert_eq!(
        g,
        "[0:a]atrim=start=0.000:end=12.500,asetpts=PTS-STARTPTS[a0];\
         [0:a]atrim=start=182.800:end=2500.000,asetpts=PTS-STARTPTS[a1];\
         [a0][a1]acrossfade=d=0.030:c1=qsin:c2=qsin[outa]"
    );
}

#[test]
fn crossfade_graph_chains_more_parts() {
    let parts: Vec<(String, String)> =
        (0..12).map(|i| b(&format!("{}", i * 10), &format!("{}", i * 10 + 5))).collect();
    let g = crossfade_filter_graph(&parts, "0.030");
    assert!(g.starts_with("[0:a]atrim=start=0:end=5,asetpts=PTS-STARTPTS[a0];"));
    assert!(g.contains("[0:a]atrim=start=110:end=115,asetpts=PTS-STARTPTS[a11];"));
    assert!(g.contains("[a0][a1]acrossfade=d=0.030:c1=qsin:c2=qsin[cf0];"));
    assert!(g.contains("[cf0][a2]acrossfade=d=0.030:c1=qsin:c2=qsin[cf1];"));
    assert!(g.contains("[cf9][a11]acrossfade=d=0.030:c1=qsin:c2=qsin[outa]"));
    assert!(g.ends_with("[outa]"));
}
