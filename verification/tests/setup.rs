use scene_deploy::error::Error;
use scene_deploy::setup::{MaterialSource, Setup, Stage};
use scene_deploy::tables::MaterialHandle;

fn sources(pairs: &[(&str, &str)]) -> Vec<MaterialSource> {
    pairs
        .iter()
        .map(|(name, path)| MaterialSource { name: name.to_string(), path: path.to_string() })
        .collect()
}

#[test]
fn setup_goes_through_its_stages_in_order() {
    let setup = Setup::new(sources(&[("Body", "face.png"), ("hair", "hair.png")]));
    assert_eq!(setup.current(), Stage::Shader);
    let setup = setup.advance(true).unwrap();
    assert_eq!(setup.current(), Stage::Material { index: 0 });
    assert_eq!(setup.source(0).unwrap().path, "face.png");
    let setup = setup.advance(true).unwrap();
    assert_eq!(setup.current(), Stage::Material { index: 1 });
    assert_eq!(setup.source(1).unwrap().name, "hair");
    assert!(setup.source(2).is_none());
    let setup = setup.advance(true).unwrap();
    assert_eq!(setup.current(), Stage::Import);
    let setup = setup.advance(true).unwrap();
    assert_eq!(setup.current(), Stage::Ready);
    let setup = setup.advance(false).unwrap();
    assert_eq!(setup.current(), Stage::Ready);
    let table = setup.into_materials().unwrap();
    assert_eq!(table.get(&"Body".to_string()), Some(MaterialHandle { id: 0 }));
    assert_eq!(table.get(&"hair".to_string()), Some(MaterialHandle { id: 1 }));
    assert_eq!(table.get(&"tail".to_string()), None);
}

#[test]
fn setup_without_sources_goes_from_shader_to_import() {
    let setup = Setup::new(Vec::new()).advance(true).unwrap();
    assert_eq!(setup.current(), Stage::Import);
}

#[test]
fn a_shader_that_fails_ends_setup() {
    let result = Setup::new(sources(&[("Body", "face.png")])).advance(false);
    assert_eq!(result.err(), Some(Error::ShaderCompileError));
}

#[test]
fn an_image_that_fails_ends_setup_with_its_path() {
    let setup = Setup::new(sources(&[("Body", "face.png"), ("hair", "hair.png")]));
    let setup = setup.advance(true).unwrap().advance(true).unwrap();
    let result = setup.advance(false);
    assert_eq!(result.err(), Some(Error::ResourceLoadError { path: "hair.png".to_string() }));
}

#[test]
fn an_asset_that_fails_to_parse_ends_setup() {
    let setup = Setup::new(Vec::new()).advance(true).unwrap();
    assert_eq!(setup.advance(false).err(), Some(Error::ImportParseError));
}

#[test]
fn the_table_is_not_handed_out_before_setup_is_ready() {
    let setup = Setup::new(sources(&[("Body", "face.png")])).advance(true).unwrap();
    assert!(setup.into_materials().is_none());
}

#[test]
fn the_later_source_of_a_name_holds() {
    let mut setup = Setup::new(sources(&[("hair", "a.png"), ("tail", "b.png"), ("hair", "c.png")]));
    while setup.current() != Stage::Ready {
        setup = setup.advance(true).unwrap();
    }
    let table = setup.into_materials().unwrap();
    assert_eq!(table.get(&"hair".to_string()), Some(MaterialHandle { id: 2 }));
    assert_eq!(table.get(&"tail".to_string()), Some(MaterialHandle { id: 1 }));
}
