use remodel::graph::{Graph, IdSource};
use remodel::json_table::{Json, TableKey, TableKind};
use remodel::upload::{
    check_model_source, check_place_source, check_upload_auth, upload_auth_kind,
    upload_response_step, UploadAuth, UploadPlaceAsset, UploadStep,
};
use remodel::Error;

#[test]
fn upload_flows_pick_their_credential() {
    let legacy = UploadPlaceAsset::Legacy(42);
    let cloud = UploadPlaceAsset::CloudAPI { place_id: 1, universe_id: 2 };
    assert_eq!(upload_auth_kind(&legacy), UploadAuth::Cookie);
    assert_eq!(upload_auth_kind(&cloud), UploadAuth::ApiKey);
    assert_eq!(check_upload_auth(&legacy, true, false), Ok(()));
    assert_eq!(check_upload_auth(&legacy, false, true), Err(Error::AuthRequired));
    assert_eq!(check_upload_auth(&cloud, false, true), Ok(()));
    assert_eq!(check_upload_auth(&cloud, true, false), Err(Error::AuthRequired));
}

#[test]
fn upload_retries_a_challenge_exactly_once() {
    // Success ends the flow.
    assert_eq!(upload_response_step(200, false, false), UploadStep::Succeed);
    assert_eq!(upload_response_step(299, true, true), UploadStep::Succeed);
    // A forbidden response with a challenge token is retried once, echoing
    // the token.
    assert_eq!(upload_response_step(403, true, false), UploadStep::RetryWithToken);
    // No token, an already-retried request, or any other failure status fail.
    assert_eq!(upload_response_step(403, false, false), UploadStep::Fail);
    assert_eq!(upload_response_step(403, true, true), UploadStep::Fail);
    assert_eq!(upload_response_step(500, true, false), UploadStep::Fail);
    assert_eq!(upload_response_step(199, false, false), UploadStep::Fail);
    assert_eq!(upload_response_step(300, false, false), UploadStep::Fail);
}

#[test]
fn place_and_model_sources_are_checked() {
    let mut ids = IdSource::new();
    let mut g = Graph::new(&mut ids, "RemodelRoot".to_string());
    let root = g.root_ref();
    let dm = g
        .insert(&mut ids, root, "DataModel".to_string(), "DataModel".to_string(), Vec::new())
        .unwrap();
    let part = g
        .insert(&mut ids, root, "Part".to_string(), "Part".to_string(), Vec::new())
        .unwrap();
    assert_eq!(check_place_source(&g, dm), Ok(()));
    assert_eq!(check_place_source(&g, part), Err(Error::InvalidClass));
    assert_eq!(check_place_source(&g, 987), Err(Error::NotFound));
    assert_eq!(check_model_source(&g, part), Ok(()));
    assert_eq!(check_model_source(&g, dm), Err(Error::InvalidClass));
    assert_eq!(check_model_source(&g, 987), Err(Error::NotFound));
}

#[test]
fn tables_classify_as_arrays_or_objects() {
    // A perfect run of whole keys is an array.
    let keys = vec![TableKey::Whole(1), TableKey::Whole(2), TableKey::Whole(3)];
    assert_eq!(Json::classify_table(&keys), TableKind::ArrayLike(3));
    // Any non-whole key makes it an object sized by its entry count.
    let keys = vec![TableKey::Whole(1), TableKey::Other];
    assert_eq!(Json::classify_table(&keys), TableKind::Sparse(2));
    // At least half resident over the highest key still serializes as an
    // array of that length.
    let keys = vec![TableKey::Whole(1), TableKey::Whole(2), TableKey::Whole(4)];
    assert_eq!(Json::classify_table(&keys), TableKind::ArrayLike(4));
    // Too sparse: an object.
    let keys = vec![TableKey::Whole(1), TableKey::Whole(8)];
    assert_eq!(Json::classify_table(&keys), TableKind::Sparse(2));
    // A non-positive numeric key is not a valid array index.
    let keys = vec![TableKey::Whole(0)];
    assert_eq!(Json::classify_table(&keys), TableKind::Sparse(1));
    // The empty table is a perfect (empty) array.
    let keys: Vec<TableKey> = vec![];
    assert_eq!(Json::classify_table(&keys), TableKind::ArrayLike(0));
}
