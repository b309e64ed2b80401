use strolle::atlas_data::SourceFormat;
use strolle::{AtlasChange, Image, ImageData, Images};

fn texture(width: u32, height: u32) -> Image<u8> {
    Image { width, height, format: SourceFormat::Rgba8UnormSrgb, data: ImageData::Texture { texture: 0, is_dynamic: false } }
}

fn raw(width: u32, height: u32, format: SourceFormat, data: Vec<u8>) -> Image<u8> {
    Image { width, height, format, data: ImageData::Raw { data } }
}

#[test]
fn raw_image_is_placed_and_written() {
    let mut images: Images<u8> = Images::new();
    images.insert(1, raw(1, 2, SourceFormat::R8Unorm, vec![10, 20]));
    let slot = images.lookup(1).unwrap();
    assert_eq!((slot.width, slot.height), (1, 2));
    let changes = images.take_changes();
    assert_eq!(changes.len(), 1);
    match &changes[0] {
        AtlasChange::Write { x, y, w, h, data: ImageData::Raw { data } } => {
            assert_eq!((*x, *y, *w, *h), (slot.x as u32, slot.y as u32, 1, 2));
            assert_eq!(data.len(), 512);
            assert_eq!(&data[0..4], &[10, 0, 0, 255]);
            assert_eq!(&data[256..260], &[20, 0, 0, 255]);
        }
        _ => panic!("expected raw bytes"),
    }
    assert!(images.take_changes().is_empty());
}

#[test]
fn same_size_keeps_the_rectangle() {
    let mut images: Images<u8> = Images::new();
    images.insert(1, raw(64, 64, SourceFormat::Rgba8UnormSrgb, vec![0; 64 * 64 * 4]));
    let first = images.lookup(1).unwrap();
    images.insert(1, raw(64, 64, SourceFormat::Rgba8UnormSrgb, vec![1; 64 * 64 * 4]));
    assert_eq!(images.lookup(1), Some(first));
    assert_eq!(images.take_changes().len(), 2);
}

#[test]
fn new_size_gets_a_new_rectangle() {
    let mut images: Images<u8> = Images::new();
    images.insert(1, raw(16, 16, SourceFormat::Unsupported, vec![]));
    images.insert(1, raw(32, 8, SourceFormat::Unsupported, vec![]));
    let slot = images.lookup(1).unwrap();
    assert_eq!((slot.width, slot.height), (32, 8));
}

#[test]
fn removed_image_is_gone() {
    let mut images: Images<u8> = Images::new();
    images.insert(1, raw(8, 8, SourceFormat::Unsupported, vec![]));
    images.insert(2, raw(8, 8, SourceFormat::Unsupported, vec![]));
    assert_ne!(images.lookup(1).unwrap().id, images.lookup(2).unwrap().id);
    images.remove(1);
    assert_eq!(images.lookup(1), None);
    assert!(images.lookup(2).is_some());
    assert_eq!(images.lookup_opt(None), None);
    assert_eq!(images.lookup_opt(Some(2)), images.lookup(2));
}

#[test]
fn textures_are_written_or_copied() {
    let mut images: Images<u8> = Images::new();
    images.insert(1, Image { width: 4, height: 4, format: SourceFormat::Rgba8UnormSrgb, data: ImageData::Texture { texture: 7, is_dynamic: false } });
    images.insert(2, Image { width: 4, height: 4, format: SourceFormat::Rgba8UnormSrgb, data: ImageData::Texture { texture: 9, is_dynamic: true } });
    let changes = images.take_changes();
    assert_eq!(changes.len(), 1);
    assert!(matches!(changes[0], AtlasChange::Write { data: ImageData::Texture { texture: 7, is_dynamic: false }, .. }));
    assert_eq!(images.dynamic().len(), 1);
    assert_eq!(images.dynamic()[0].0, 9);
    assert_eq!(images.dynamic()[0].1, images.lookup(2).unwrap());
}

#[test]
fn image_larger_than_the_atlas_is_not_placed() {
    let mut images: Images<u8> = Images::new();
    images.insert(1, raw(9000, 1, SourceFormat::Unsupported, vec![]));
    assert_eq!(images.lookup(1), None);
    assert!(images.take_changes().is_empty());
}

#[test]
fn image_of_the_atlas_size_fills_an_empty_atlas() {
    let mut images: Images<u8> = Images::new();
    images.insert(1, texture(8192, 8192));
    let slot = images.lookup(1).unwrap();
    assert_eq!((slot.x, slot.y, slot.width, slot.height), (0, 0, 8192, 8192));
    images.insert(2, raw(1, 1, SourceFormat::Unsupported, vec![]));
    assert_eq!(images.lookup(2), None);
    images.remove(1);
    images.insert(2, raw(1, 1, SourceFormat::Unsupported, vec![]));
    assert!(images.lookup(2).is_some());
}

#[test]
fn resize_that_does_not_fit_keeps_the_old_entry() {
    let mut images: Images<u8> = Images::new();
    images.insert(1, texture(8192, 8192));
    let first = images.lookup(1).unwrap();
    images.insert(1, raw(9000, 1, SourceFormat::Unsupported, vec![]));
    assert_eq!(images.lookup(1), Some(first));
    images.insert(1, texture(8192, 8192));
    assert_eq!(images.lookup(1), Some(first));
    assert_eq!(images.take_changes().len(), 2);
}

#[test]
fn refused_image_leaves_nothing_queued() {
    let mut images: Images<u8> = Images::new();
    assert!(images.insert(1, texture(8192, 8192)));
    images.take_changes();
    assert!(!images.insert(2, Image { width: 4, height: 4, format: SourceFormat::Rgba8UnormSrgb, data: ImageData::Texture { texture: 5, is_dynamic: true } }));
    assert_eq!(images.lookup(2), None);
    assert!(images.take_changes().is_empty());
    assert!(images.dynamic().is_empty());
    assert!(images.lookup(1).is_some());
}

#[test]
fn resize_of_the_only_image_is_placed() {
    let mut images: Images<u8> = Images::new();
    assert!(images.insert(1, texture(8192, 8192)));
    assert!(images.insert(1, texture(100, 50)));
    let slot = images.lookup(1).unwrap();
    assert_eq!((slot.width, slot.height), (100, 50));
    assert!(images.insert(1, texture(8192, 8192)));
}

#[test]
fn placed_images_do_not_overlap() {
    let mut images: Images<u8> = Images::new();
    for h in 0..20u64 {
        assert!(images.insert(h, texture(300 + h as u32, 200)));
    }
    let slots: Vec<_> = (0..20u64).map(|h| images.lookup(h).unwrap()).collect();
    for (i, a) in slots.iter().enumerate() {
        for b in &slots[i + 1..] {
            let apart = a.x + a.width <= b.x
                || b.x + b.width <= a.x
                || a.y + a.height <= b.y
                || b.y + b.height <= a.y;
            assert!(apart);
        }
    }
}
