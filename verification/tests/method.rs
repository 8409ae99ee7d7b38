use prost_reflect::DescriptorPool;
use prost_types::{
    DescriptorProto, FileDescriptorProto, MethodDescriptorProto, ServiceDescriptorProto,
};
use yaak_grpc::method::{method_desc_to_path, path_for, try_method_desc_to_path};

#[test]
fn the_last_dot_divides_service_and_method() {
    assert_eq!(
        path_for("my.package.MyService.my_method").as_deref(),
        Some("/my.package.MyService/my_method")
    );
    assert_eq!(path_for("Service.Method").as_deref(), Some("/Service/Method"));
    assert_eq!(path_for("Service.").as_deref(), Some("/Service/"));
    assert_eq!(path_for("nodots"), None);
    assert_eq!(path_for(""), None);
}

fn pool(method: &str) -> DescriptorPool {
    let file = FileDescriptorProto {
        name: Some("echo.proto".to_string()),
        package: Some("echo.v1".to_string()),
        message_type: vec![DescriptorProto { name: Some("M".to_string()), ..Default::default() }],
        service: vec![ServiceDescriptorProto {
            name: Some("Echo".to_string()),
            method: vec![MethodDescriptorProto {
                name: Some(method.to_string()),
                input_type: Some(".echo.v1.M".to_string()),
                output_type: Some(".echo.v1.M".to_string()),
                ..Default::default()
            }],
            ..Default::default()
        }],
        ..Default::default()
    };
    let mut pool = DescriptorPool::new();
    pool.add_file_descriptor_proto(file).unwrap();
    pool
}

#[test]
fn a_method_has_the_path_of_its_name() {
    let pool = pool("Say");
    let service = pool.get_service_by_name("echo.v1.Echo").unwrap();
    let method = service.methods().next().unwrap();
    assert_eq!(method_desc_to_path(&method).as_str(), "/echo.v1.Echo/Say");
    assert_eq!(try_method_desc_to_path(&method).unwrap().as_str(), "/echo.v1.Echo/Say");
}

#[test]
fn a_name_that_makes_no_path_is_refused() {
    let pool = pool("Say it");
    let service = pool.get_service_by_name("echo.v1.Echo").unwrap();
    let method = service.methods().next().unwrap();
    assert!(try_method_desc_to_path(&method).is_none());
}
