//! The tools of the system that the launcher offers: consoles, control panels
//! and the pages of the settings.
use vstd::prelude::*;

verus! {

/// The tools: the name of each, and what it opens. A target that begins with
/// `\` is a file of the system directory.
pub const TOOLS: [(&'static str, &'static str); 88] = [
    ("Settings", "ms-settings:"),
    ("Control Panel", "shell:::{21EC2020-3AEA-1069-A2DD-08002B30309D}"),
    ("Run", "shell:::{2559a1f3-21d7-11d4-bdaf-00c04f60b9f0}"),
    ("Task Manager", "\\Taskmgr.exe"),
    ("Device Manager", "\\devmgmt.msc"),
    ("Event Viewer", "\\eventvwr.msc"),
    ("Disk Management", "\\diskmgmt.msc"),
    ("Computer Management", "\\compmgmt.msc"),
    ("Programs and Features", "\\appwiz.cpl"),
    ("Network Connections", "\\ncpa.cpl"),
    ("System Properties", "\\sysdm.cpl"),
    ("Registry Editor", "\\regedit.exe"),
    ("Windows Explorer", "\\explorer.exe"),
    ("Settings: Wi-Fi", "ms-settings:wifi"),
    ("Settings: Bluetooth", "ms-settings:bluetooth"),
    ("Settings: Display", "ms-settings:display"),
    ("Settings: Sound", "ms-settings:sound"),
    ("Settings: Network & Internet", "ms-settings:network"),
    ("Settings: Ethernet", "ms-settings:ethernet"),
    ("Settings: Mobile Hotspot", "ms-settings:mobilehotspot"),
    ("Settings: VPN", "ms-settings:vpndialup"),
    ("Settings: Windows Update", "ms-settings:windowsupdate"),
    ("Settings: Installed Apps", "ms-settings:appsfeatures"),
    ("Settings: Startup Apps", "ms-settings:startupapps"),
    ("Settings: Default Apps", "ms-settings:defaultapps"),
    ("Settings: Notifications", "ms-settings:notifications"),
    ("Settings: Storage", "ms-settings:storage"),
    ("Settings: Multitasking", "ms-settings:multitasking"),
    ("Settings: About", "ms-settings:about"),
    ("Settings: Keyboard", "ms-settings:keyboard"),
    ("Settings: Mouse", "ms-settings:mouse"),
    ("Settings: Typing", "ms-settings:typing"),
    ("Settings: Touchpad", "ms-settings:touchpad"),
    ("Settings: Personalization", "ms-settings:personalization"),
    ("Settings: Lock Screen", "ms-settings:lockscreen"),
    ("Settings: Taskbar", "ms-settings:taskbar"),
    ("Settings: Sign-in Options", "ms-settings:signinoptions"),
    ("Settings: Accounts", "ms-settings:accounts"),
    ("Settings: Date & Time", "ms-settings:dateandtime"),
    ("Settings: Region & Language", "ms-settings:regionlanguage"),
    ("Settings: Gaming", "ms-settings:gaming"),
    ("Settings: Game Bar", "ms-settings:gaming-gamebar"),
    ("Settings: Accessibility", "ms-settings:accessibility"),
    ("Settings: Camera Privacy", "ms-settings:privacy-webcam"),
    ("Settings: Microphone Privacy", "ms-settings:privacy-microphone"),
    ("Settings: Power & Battery", "ms-settings:powersleep"),
    ("Settings: Battery Saver", "ms-settings:batterysaver"),
    ("Settings: Night Light", "ms-settings:nightlight"),
    ("Settings: Wallpaper", "ms-settings:personalization-background"),
    ("Settings: Colors", "ms-settings:colors"),
    ("Settings: Themes", "ms-settings:themes"),
    ("Settings: Fonts", "ms-settings:fonts"),
    ("Settings: Clipboard", "ms-settings:clipboard"),
    ("Settings: Focus Assist", "ms-settings:quiethours"),
    ("Settings: Phone Link", "ms-settings:phone"),
    ("Settings: Printers & Scanners", "ms-settings:printers"),
    ("Settings: Location Privacy", "ms-settings:privacy-location"),
    ("Settings: Backup", "ms-settings:backup"),
    ("Settings: Troubleshoot", "ms-settings:troubleshoot"),
    ("Settings: Recovery", "ms-settings:recovery"),
    ("Settings: Activation", "ms-settings:activation"),
    ("Settings: Developer Mode", "ms-settings:developers"),
    ("Settings: Windows Security", "ms-settings:windowsdefender"),
    ("Settings: Search", "ms-settings:search"),
    ("Settings: Optional Features", "ms-settings:optionalfeatures"),
    ("Settings: Project to This PC", "ms-settings:project"),
    ("Settings: Email & Accounts", "ms-settings:emailandaccounts"),
    ("Settings: Time & Language", "ms-settings:time-language"),
    ("Settings: Airplane Mode", "ms-settings:network-airplanemode"),
    ("Settings: Data Usage", "ms-settings:network-datausage"),
    ("Settings: Advanced Network", "ms-settings:network-advancedsettings"),
    ("Settings: Network Status", "ms-settings:network-status"),
    ("Settings: Proxy", "ms-settings:network-proxy"),
    ("Settings: Bluetooth Devices", "ms-settings:bluetoothdevices"),
    ("Settings: Diagnostics & Feedback", "ms-settings:diagnostics"),
    ("Settings: Activity History", "ms-settings:privacy-activityhistory"),
    ("Settings: Privacy", "ms-settings:privacy"),
    ("Settings: Speech", "ms-settings:speech"),
    ("Settings: Voice Typing", "ms-settings:speech-typing"),
    ("Settings: Remote Desktop", "ms-settings:remote-desktop"),
    ("Settings: Work or School", "ms-settings:workplace"),
    ("Settings: Other Users", "ms-settings:otherusers"),
    ("Settings: Captures", "ms-settings:gaming-captures"),
    ("Settings: Broadcasting", "ms-settings:gaming-broadcasting"),
    ("Settings: Advanced Display", "ms-settings:display-advanced"),
    ("Settings: Graphics", "ms-settings:display-graphics"),
    ("Settings: Windows Insider", "ms-settings:windowsinsider"),
    ("Settings: Storage Sense", "ms-settings:storagesense"),
];

} // verus!
