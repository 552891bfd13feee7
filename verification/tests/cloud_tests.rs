use tedge_core::cloud::{Cloud, SystemService};

#[test]
fn cloud_display_names() {
    assert_eq!(Cloud::C8y.as_str(), "Cumulocity");
    assert_eq!(Cloud::Azure.as_str(), "Azure");
}

#[test]
fn cloud_mapper_services() {
    assert_eq!(
        Cloud::C8y.dependent_mapper_service(),
        SystemService::TEdgeMapperC8y
    );
    assert_eq!(
        Cloud::Azure.dependent_mapper_service(),
        SystemService::TEdgeMapperAz
    );
}
