use baton::db::DbError;
use baton::remove::{page, project};

#[test]
fn an_id_that_climbs_out_of_the_root_is_refused() {
    let root = "/nonexistent-baton-root";
    assert!(page(root, "../outside").is_err());
    assert!(page(root, "/etc/passwd").is_err());
    assert!(project(root, "../..").is_err());
}

#[test]
fn a_page_that_is_not_there_is_not_found() {
    let r = page("/nonexistent-baton-root", "projects/demo/ghost");
    assert!(matches!(r, Err(DbError::NotFound(id)) if id == "projects/demo/ghost"));
    let r = project("/nonexistent-baton-root", "demo");
    assert!(matches!(r, Err(DbError::NotFound(slug)) if slug == "demo"));
}
