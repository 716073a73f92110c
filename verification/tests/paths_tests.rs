use wallet_service::paths::_wallet_config_path;
use wallet_service::paths::_wallet_descriptor_path;
use wallet_service::paths::_wallet_path;

#[test]
fn wallet_path_joins_base_and_name() {
    assert_eq!(_wallet_path("/home/user/.wallets", "w1"), "/home/user/.wallets/w1");
}

#[test]
fn descriptor_path_appends_fixed_file_name() {
    assert_eq!(
        _wallet_descriptor_path("/home/user/.wallets", "w1"),
        "/home/user/.wallets/w1/wallet.json"
    );
}

#[test]
fn config_path_appends_fixed_file_name() {
    assert_eq!(
        _wallet_config_path("/home/user/.wallets", "w1"),
        "/home/user/.wallets/w1/config.json"
    );
}
