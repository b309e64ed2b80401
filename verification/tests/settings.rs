use strolle::{AlphaMode, Axis, ExtractedStrolleCamera, ViewportConfiguration, ViewportMode};

#[test]
fn viewport_mode_numbers() {
    assert_eq!(ViewportMode::DisplayImage.serialize(), 0);
    assert_eq!(ViewportMode::DisplayNormals.serialize(), 1);
    assert_eq!(ViewportMode::DisplayBvhHeatmap.serialize(), 2);
    assert_eq!(ViewportMode::default(), ViewportMode::DisplayImage);
}

#[test]
fn bounces_only_for_the_image() {
    let image = ViewportConfiguration { mode: ViewportMode::DisplayImage, bounces: 3 };
    let normals = ViewportConfiguration { mode: ViewportMode::DisplayNormals, bounces: 3 };
    let heatmap = ViewportConfiguration { mode: ViewportMode::DisplayBvhHeatmap, bounces: 3 };
    assert_eq!(image.bounces(), 3);
    assert_eq!(normals.bounces(), 0);
    assert_eq!(heatmap.bounces(), 0);
}

#[test]
fn denoising_only_with_bounces() {
    let none = ViewportConfiguration { mode: ViewportMode::DisplayImage, bounces: 0 };
    let some = ViewportConfiguration { mode: ViewportMode::DisplayImage, bounces: 1 };
    let normals = ViewportConfiguration { mode: ViewportMode::DisplayNormals, bounces: 4 };
    assert!(!none.apply_denoising());
    assert!(some.apply_denoising());
    assert!(!normals.apply_denoising());
    for config in [none, some, normals] {
        assert_eq!(config.apply_denoising(), config.bounces() > 0);
    }
}

#[test]
fn default_configuration() {
    let config = ViewportConfiguration::default();
    assert_eq!(config.mode, ViewportMode::DisplayImage);
    assert_eq!(config.bounces, 0);
    assert!(!config.apply_denoising());
}

#[test]
fn axes() {
    let all = Axis::all();
    assert_eq!(all.len(), 3);
    assert!(matches!(all[0], Axis::X));
    assert!(matches!(all[1], Axis::Y));
    assert!(matches!(all[2], Axis::Z));
    assert!(matches!(Axis::from_index(0), Axis::X));
    assert!(matches!(Axis::from_index(1), Axis::Y));
    assert!(matches!(Axis::from_index(2), Axis::Z));
}

#[test]
fn alpha_mode_defaults_to_opaque() {
    assert!(matches!(AlphaMode::default(), AlphaMode::Opaque));
    let _ = ExtractedStrolleCamera;
}

#[test]
fn measure_returns_the_result() {
    assert_eq!(strolle::measure("sum", || 2 + 3), 5);
    strolle::metric("nothing", std::time::Instant::now());
}
