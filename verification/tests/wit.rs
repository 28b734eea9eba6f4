use oxyromon::model::Romfile;
use oxyromon::wit::{
    copy_arguments, iso_after_copy, version_from_output, wbfs_after_copy, AsWbfs, IsoRomfile,
    WbfsRomfile, WitError, WitFormat, WIT,
};

#[test]
fn wbfs_recognized_in_any_case() {
    assert_eq!(
        WbfsRomfile::from_path("/roms/Wii/Game.wbfs"),
        Ok(WbfsRomfile { path: "/roms/Wii/Game.wbfs".to_string() })
    );
    assert_eq!(
        WbfsRomfile::from_path("Game.WBFS"),
        Ok(WbfsRomfile { path: "Game.WBFS".to_string() })
    );
    assert_eq!(WbfsRomfile::from_path("Game.iso"), Err(WitError::NotWbfs));
    assert_eq!(WbfsRomfile::from_path("Game.wbfs.zip"), Err(WitError::NotWbfs));
}

#[test]
fn romfile_as_wbfs() {
    let r = Romfile { id: 3, path: "dir/Game.Wbfs".to_string() };
    assert_eq!(r.as_wbfs(), Ok(WbfsRomfile { path: "dir/Game.Wbfs".to_string() }));
    let r = Romfile { id: 3, path: "dir/Game.rvz".to_string() };
    assert_eq!(r.as_wbfs(), Err(WitError::NotWbfs));
}

#[test]
fn conversion_destinations() {
    let w = WbfsRomfile { path: "/roms/Wii/Game (USA).wbfs".to_string() };
    assert_eq!(w.iso_destination("/tmp/x"), "/tmp/x/Game (USA).iso");
    let i = IsoRomfile { path: "/tmp/x/Game (USA).iso".to_string() };
    assert_eq!(i.wbfs_destination("/roms/Wii/"), "/roms/Wii/Game (USA).wbfs");
    let i = IsoRomfile { path: "disc".to_string() };
    assert_eq!(i.wbfs_destination("out"), "out/disc.wbfs");
}

#[test]
fn copy_command_lines() {
    assert_eq!(WIT, "wit");
    assert_eq!(
        copy_arguments(WitFormat::Iso, "a.wbfs", "b.iso"),
        vec!["COPY", "--iso", "--source", "a.wbfs", "--dest", "b.iso"]
    );
    assert_eq!(
        copy_arguments(WitFormat::Wbfs, "b.iso", "a.wbfs"),
        vec!["COPY", "--wbfs", "--source", "b.iso", "--dest", "a.wbfs"]
    );
}

#[test]
fn copy_outcomes() {
    assert_eq!(
        iso_after_copy(true, String::new(), "x.iso".to_string()),
        Ok(IsoRomfile { path: "x.iso".to_string() })
    );
    assert_eq!(
        iso_after_copy(false, "boom".to_string(), "x.iso".to_string()),
        Err(WitError::CommandFailed("boom".to_string()))
    );
    assert_eq!(
        wbfs_after_copy(true, String::new(), "x.wbfs".to_string()),
        Ok(WbfsRomfile { path: "x.wbfs".to_string() })
    );
    assert_eq!(
        wbfs_after_copy(false, "bad".to_string(), "x.wbfs".to_string()),
        Err(WitError::CommandFailed("bad".to_string()))
    );
}

#[test]
fn version_parsing() {
    assert_eq!(
        version_from_output("wit: Wiimms ISO Tool v3.05a r8638 x86_64 - Dirk Clemens - 2022-09-05\nmore\n"),
        Some("3.05a".to_string())
    );
    assert_eq!(version_from_output("v2.40\r\n"), Some("2.40".to_string()));
    assert_eq!(version_from_output(""), Some("unknown".to_string()));
    assert_eq!(version_from_output("no version here\n3.1"), Some("unknown".to_string()));
}
