use exportsnap::env::{probe_target, Environment, Room, SpaceError, Tool};
use exportsnap::paths::FilePath;

#[test]
fn each_field_holds_the_tool_it_is_named_after() {
    let environment = Environment::from_probes(|tool: Tool| Some(FilePath::new(tool.command())), Some(7), Some(14));
    assert_eq!(environment.ffmpeg, Some(FilePath::new("ffmpeg")));
    assert_eq!(environment.vlc, Some(FilePath::new("vlc")));
    assert_eq!(environment.tool(Tool::Ffmpeg), Some(&FilePath::new("ffmpeg")));
    assert_eq!(environment.tool(Tool::Vlc), Some(&FilePath::new("vlc")));
    assert_eq!(environment.available_space, Some(7));
}

#[test]
fn a_locator_that_finds_nothing_leaves_the_space_figure_alone() {
    let environment = Environment::from_probes(|_: Tool| None, Some(42), None);
    assert_eq!(environment.ffmpeg, None);
    assert_eq!(environment.vlc, None);
    assert_eq!(environment.available_space, Some(42));
}

#[test]
fn another_disk_leaves_the_tools_where_they_are() {
    let here = Environment::from_probes(|tool: Tool| Some(FilePath::new(tool.command())), Some(7), Some(14));
    let there = here.measured_at(Room { available: Some(1), total: None });
    assert_eq!(there.ffmpeg, here.ffmpeg);
    assert_eq!(there.vlc, here.vlc);
    assert_eq!((there.available_space, there.total_space), (Some(1), None));
}

#[test]
fn a_disk_is_measured_at_the_nearest_directory_there_is() {
    let there = |path: &FilePath| path.text() == "/a";
    assert_eq!(probe_target(&FilePath::new("/a/b/c"), there).text(), "/a");
    assert_eq!(probe_target(&FilePath::new("/a"), there).text(), "/a");
    assert_eq!(probe_target(&FilePath::new("/x/y"), |_: &FilePath| false).text(), "/");
    assert_eq!(probe_target(&FilePath::new("x/y"), |_: &FilePath| false).text(), "x");
}

#[test]
fn a_disk_that_cannot_be_measured_is_named() {
    let said = SpaceError { path: "/a".to_owned(), source: "gone".to_owned() }.message();
    assert_eq!(said, "could not measure free space on the filesystem holding /a: gone; check the path exists and is readable");
}
