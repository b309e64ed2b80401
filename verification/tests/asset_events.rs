use strolle::asset_events::{
    collect_asset_events, extracted_image_data, split_missing, track_dynamic_images, AssetEvent, ExtractedImageData,
};

fn sorted(set: std::collections::HashSet<u64>) -> Vec<u64> {
    let mut v: Vec<u64> = set.into_iter().collect();
    v.sort();
    v
}

#[test]
fn meshes_keep_removed_changes() {
    let events = [
        AssetEvent::Added { id: 1 },
        AssetEvent::Modified { id: 2 },
        AssetEvent::Removed { id: 1 },
        AssetEvent::LoadedWithDependencies { id: 3 },
        AssetEvent::Removed { id: 4 },
    ];
    let (changed, removed) = collect_asset_events(&events, false);
    assert_eq!(sorted(changed), vec![1, 2]);
    assert_eq!(removed, vec![1, 4]);
}

#[test]
fn images_drop_removed_changes() {
    let events = [
        AssetEvent::Added { id: 1 },
        AssetEvent::Modified { id: 2 },
        AssetEvent::Removed { id: 1 },
        AssetEvent::Added { id: 5 },
    ];
    let (changed, removed) = collect_asset_events(&events, true);
    assert_eq!(sorted(changed), vec![2, 5]);
    assert_eq!(removed, vec![1]);
}

#[test]
fn readded_image_is_extracted() {
    let events = [
        AssetEvent::Added { id: 1 },
        AssetEvent::Removed { id: 1 },
        AssetEvent::Added { id: 1 },
    ];
    let (changed, removed) = collect_asset_events(&events, true);
    assert_eq!(sorted(changed), vec![1]);
    assert_eq!(removed, vec![1]);
}

#[test]
fn dynamic_images_are_marked_until_removed() {
    let mut dynamic = std::collections::HashSet::new();
    track_dynamic_images(&mut dynamic, &[1, 2], &[AssetEvent::Added { id: 1 }]);
    assert_eq!(sorted(dynamic.clone()), vec![1, 2]);
    track_dynamic_images(&mut dynamic, &[3], &[AssetEvent::Removed { id: 2 }, AssetEvent::Removed { id: 3 }]);
    assert_eq!(sorted(dynamic.clone()), vec![1]);

    assert!(matches!(
        extracted_image_data(true, true, vec![1, 2]),
        ExtractedImageData::Texture { is_dynamic: true }
    ));
    match extracted_image_data(false, false, vec![1, 2]) {
        ExtractedImageData::Raw { data } => assert_eq!(data, vec![1, 2]),
        _ => panic!("expected raw bytes"),
    }
}

#[test]
fn changed_assets_missing_from_the_store_count_as_removed() {
    let changed: std::collections::HashSet<u64> = [1, 2, 3].into_iter().collect();
    let available: std::collections::HashSet<u64> = [2, 9].into_iter().collect();
    let mut removed = vec![7];
    let mut kept = split_missing(&changed, &available, &mut removed);
    kept.sort();
    assert_eq!(kept, vec![2]);
    assert_eq!(removed[0], 7);
    let mut rest = removed[1..].to_vec();
    rest.sort();
    assert_eq!(rest, vec![1, 3]);
}
