use live::services::{collect, ports, properties};
use std::collections::BTreeSet;

#[test]
fn sockets_match_exact_pid_and_parse_ipv6() {
    let sockets = "LISTEN 0 128 [::]:3444 [::]:* users:((\"live\",pid=42,fd=4))\nLISTEN 0 128 0.0.0.0:9999 0.0.0.0:* users:((\"other\",pid=142,fd=4))";
    assert_eq!(ports(sockets, 42), BTreeSet::from([3444]));
    assert_eq!(
        ports(
            "tcp LISTEN 0 128 *:3000 *:* users:((\"app\",pid=42,fd=3))",
            42
        ),
        BTreeSet::from([3000])
    );
    assert!(ports(sockets, 0).is_empty());
}

#[test]
fn units_stay_associated_when_property_order_changes() {
    let data = properties(
        "ActiveState=active\nId=live.service\nMainPID=42\n\nId=jirpi.service\nActiveState=failed\nMainPID=0",
    );
    assert_eq!(data.get("live.service", "ActiveState").unwrap(), "active");
    assert_eq!(data.get("jirpi.service", "ActiveState").unwrap(), "failed");
}

#[test]
fn blocks_without_id_are_ignored_and_later_blocks_win() {
    let data = properties("ActiveState=active\n\nId=a\nX=1\n\nId=a\nX=2\nX=3\nnot a pair");
    assert_eq!(data.get("a", "X").unwrap(), "3");
    assert_eq!(data.get("a", "ActiveState"), None);
    assert_eq!(data.get("b", "X"), None);
    let odd = properties("Id=a\n\n\nId=b");
    assert_eq!(odd.get("a", "Id").unwrap(), "a");
    assert_eq!(odd.get("b", "Id").unwrap(), "b");
}

#[test]
fn ports_parse_the_text_after_the_last_colon() {
    let sockets = "LISTEN 0 128 127.0.0.1:8080 0.0.0.0:* users:((\"a\",pid=7,fd=3))\nLISTEN 0 128 [::1]:+81 [::]:* users:((\"a\",pid=7,fd=4))\nLISTEN 0 128 host:99999 0.0.0.0:* users:((\"a\",pid=7,fd=5))\nLISTEN 0 users:((\"a\",pid=7,fd=6))";
    assert_eq!(ports(sockets, 7), BTreeSet::from([8080, 81]));
}

#[test]
fn collect_reports_states_and_ports() {
    let units = "Id=live.service\nActiveState=active\nMainPID=42\nLoadState=loaded\n\nId=tetris.service\nActiveState=inactive\nMainPID=0\nLoadState=not-found\n\nId=jirpi.service\nActiveState=failed\nMainPID=7\nLoadState=loaded";
    let sockets = "LISTEN 0 128 0.0.0.0:9999 0.0.0.0:* users:((\"live\",pid=42,fd=4))\nLISTEN 0 128 0.0.0.0:9000 0.0.0.0:* users:((\"live\",pid=42,fd=5))\nLISTEN 0 128 0.0.0.0:7000 0.0.0.0:* users:((\"j\",pid=7,fd=5))\nLISTEN 0 128 0.0.0.0:6000 0.0.0.0:* users:((\"j\",pid=7,fd=6))";
    let out = collect(units, sockets);
    assert_eq!(
        out,
        "[{\"unit\":\"iploc.service\",\"name\":\"IP Location\",\"state\":\"unknown\",\"port\":3000},\
{\"unit\":\"id-generator.service\",\"name\":\"ID Generator\",\"state\":\"unknown\",\"port\":3012},\
{\"unit\":\"tetris.service\",\"name\":\"Tetris\",\"state\":\"unknown\",\"port\":3020},\
{\"unit\":\"solitaire.service\",\"name\":\"Solitaire\",\"state\":\"unknown\",\"port\":3021},\
{\"unit\":\"trader-dashboard.service\",\"name\":\"Trader Dashboard\",\"state\":\"unknown\",\"port\":3040},\
{\"unit\":\"sym_notes.service\",\"name\":\"Sym Notes\",\"state\":\"unknown\",\"port\":3444},\
{\"unit\":\"jirpi.service\",\"name\":\"JiraPi\",\"state\":\"failed\",\"port\":6000},\
{\"unit\":\"live.service\",\"name\":\"Live Status\",\"state\":\"active\",\"port\":9999}]"
    );
}
