//! Filters for the kinds of entry the platform looks for.
use vstd::prelude::*;

use crate::filter::{FilterBuilder, LdapFilter};

verus! {

/// Whether `f` is `(objectClass=class)`.
pub open spec fn is_class(f: LdapFilter, class: Seq<char>) -> bool {
    f matches LdapFilter::Equals(a, v) && a@ == "objectClass"@ && v@ == class
}

/// Whether `f` is `(attr=value)`.
pub open spec fn is_eq(f: LdapFilter, attr: Seq<char>, value: Seq<char>) -> bool {
    f matches LdapFilter::Equals(a, v) && a@ == attr && v@ == value
}

/// People with access-control data: inetOrgPerson and hrcAcl entries.
pub fn hrc_user() -> (r: LdapFilter)
    ensures
        r matches LdapFilter::And(v) && v@.len() == 2 && is_class(v@[0], "inetOrgPerson"@)
            && is_class(v@[1], "hrcAcl"@),
{
    FilterBuilder::new().object_class("inetOrgPerson").object_class("hrcAcl").build_and()
}

/// POSIX accounts.
pub fn posix_user() -> (r: LdapFilter)
    ensures
        is_class(r, "posixAccount"@),
{
    FilterBuilder::new().object_class("posixAccount").build_and()
}

/// POSIX groups.
pub fn posix_group() -> (r: LdapFilter)
    ensures
        is_class(r, "posixGroup"@),
{
    LdapFilter::eq("objectClass", "posixGroup")
}

/// Organizational units.
pub fn organizational_unit() -> (r: LdapFilter)
    ensures
        is_class(r, "organizationalUnit"@),
{
    LdapFilter::eq("objectClass", "organizationalUnit")
}

/// The person with user id `uid`.
pub fn user_by_uid(uid: &str) -> (r: LdapFilter)
    ensures
        r matches LdapFilter::And(v) && v@.len() == 2 && is_class(v@[0], "inetOrgPerson"@)
            && is_eq(v@[1], "uid"@, uid@),
{
    FilterBuilder::new().object_class("inetOrgPerson").eq("uid", uid).build_and()
}

/// The person with mail address `mail`.
pub fn user_by_mail(mail: &str) -> (r: LdapFilter)
    ensures
        r matches LdapFilter::And(v) && v@.len() == 2 && is_class(v@[0], "inetOrgPerson"@)
            && is_eq(v@[1], "mail"@, mail@),
{
    FilterBuilder::new().object_class("inetOrgPerson").eq("mail", mail).build_and()
}

/// Any kind of system: servers, workstations, terminals, printers, phones and mobile phones.
pub fn system() -> (r: LdapFilter)
    ensures
        r matches LdapFilter::Or(v) && v@.len() == 6 && is_class(v@[0], "hrcServer"@) && is_class(
            v@[1],
            "hrcWorkstation"@,
        ) && is_class(v@[2], "hrcTerminal"@) && is_class(v@[3], "hrcPrinter"@) && is_class(
            v@[4],
            "hrcPhone"@,
        ) && is_class(v@[5], "hrcMobilePhone"@),
{
    let mut v: Vec<LdapFilter> = Vec::new();
    v.push(LdapFilter::eq("objectClass", "hrcServer"));
    v.push(LdapFilter::eq("objectClass", "hrcWorkstation"));
    v.push(LdapFilter::eq("objectClass", "hrcTerminal"));
    v.push(LdapFilter::eq("objectClass", "hrcPrinter"));
    v.push(LdapFilter::eq("objectClass", "hrcPhone"));
    v.push(LdapFilter::eq("objectClass", "hrcMobilePhone"));
    LdapFilter::or(v)
}

/// DNS zones.
pub fn dns_zone() -> (r: LdapFilter)
    ensures
        is_class(r, "dNSZone"@),
{
    LdapFilter::eq("objectClass", "dNSZone")
}

/// DHCP subnets.
pub fn dhcp_subnet() -> (r: LdapFilter)
    ensures
        is_class(r, "dhcpSubnet"@),
{
    LdapFilter::eq("objectClass", "dhcpSubnet")
}

/// sudo rules.
pub fn sudo_rule() -> (r: LdapFilter)
    ensures
        is_class(r, "sudoRole"@),
{
    LdapFilter::eq("objectClass", "sudoRole")
}

/// Entries that can hold an SSH public key and have one.
pub fn user_with_ssh_key() -> (r: LdapFilter)
    ensures
        r matches LdapFilter::And(v) && v@.len() == 2 && is_class(v@[0], "ldapPublicKey"@)
            && (v@[1] matches LdapFilter::Present(a) && a@ == "sshPublicKey"@),
{
    FilterBuilder::new().object_class("ldapPublicKey").present("sshPublicKey").build_and()
}

} // verus!
